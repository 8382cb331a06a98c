//! Which files pass the two steps, and what hashing makes of them.
use crate::file_record;
use crate::file_record::FileRecord;
use crate::filter_duplicates;
use crate::filter_duplicates::{step1, step2, HashPass, HashStage};
use crate::grouping;
use crate::laws;
use crate::outcomes::folder;
use crate::outcomes::lists;
use crate::sorting;
use vstd::prelude::*;

verus! {

/// The files of one size.
pub open spec fn of_size(size: i64) -> spec_fn(FileRecord) -> bool {
    |f: FileRecord| f.size == size
}

/// The files whose first bytes have this hash.
pub open spec fn of_prefix(hash: Seq<char>) -> spec_fn(FileRecord) -> bool {
    |f: FileRecord| lists::text_of(f.hash_4096) == Some(hash)
}

/// A pass that has begun on files: it hashes those that lack the hash in question, in
/// order, and has stored nothing.
pub open spec fn has_begun(
    kept: Seq<FileRecord>,
    lacks: spec_fn(FileRecord) -> bool,
    pending: Seq<usize>,
    next: Option<usize>,
    num_commands: i32,
) -> bool {
    &&& forall|i: usize| #[trigger]
        pending.contains(i) <==> i < kept.len() && lacks(kept[i as int])
    &&& forall|j: int, k: int| 0 <= j < k < pending.len() ==> pending[j] < pending[k]
    &&& next == if pending.len() > 0 {
        Some(pending[0])
    } else {
        None
    }
    &&& num_commands == 0
}

proof fn lemma_begun(
    pass: &HashPass,
    stage: HashStage,
    candidates: Seq<FileRecord>,
    kept: &Vec<FileRecord>,
    pending: &Vec<usize>,
    next: Option<usize>,
    num_commands: i32,
)
    requires
        pass@ == filter_duplicates::PassModel::start(stage, candidates),
        pass@.valid(),
        call_ensures(HashPass::files, (pass,), kept),
        call_ensures(HashPass::pending, (pass,), pending),
        call_ensures(HashPass::next, (pass,), next),
        call_ensures(HashPass::num_commands, (pass,), num_commands),
    ensures
        kept@ == candidates,
        stage is Short ==> has_begun(
            kept@,
            |f: FileRecord| f.hash_4096 is None,
            pending@,
            next,
            num_commands,
        ),
        stage is Full ==> has_begun(
            kept@,
            |f: FileRecord| f.hash is None,
            pending@,
            next,
            num_commands,
        ),
{
    filter_duplicates::missing_are_the_files_without_hash(stage, candidates);
}

/// The first step keeps, of the files of each size above zero, all where they are two
/// or more, as they stood, and none otherwise; smaller sizes come first. It hashes
/// those of which the hash of the first bytes is not known.
pub proof fn the_first_step_keeps_equal_sizes(
    files: Vec<FileRecord>,
    pass: &HashPass,
    kept: &Vec<FileRecord>,
    pending: &Vec<usize>,
    next: Option<usize>,
    num_commands: i32,
    size: i64,
)
    requires
        call_ensures(step1, (files,), *pass),
        call_ensures(HashPass::files, (pass,), kept),
        call_ensures(HashPass::pending, (pass,), pending),
        call_ensures(HashPass::next, (pass,), next),
        call_ensures(HashPass::num_commands, (pass,), num_commands),
    ensures
        kept@.filter(of_size(size)) == if size > 0 && files@.filter(of_size(size)).len() >= 2 {
            files@.filter(of_size(size))
        } else {
            Seq::<FileRecord>::empty()
        },
        forall|i: int, j: int|
            0 <= i < j < kept@.len() ==> (#[trigger] kept@[i]).size <= (#[trigger] kept@[j]).size,
        has_begun(kept@, |f: FileRecord| f.hash_4096 is None, pending@, next, num_commands),
{
    lemma_begun(
        pass,
        HashStage::Short,
        filter_duplicates::size_candidates(files@),
        kept,
        pending,
        next,
        num_commands,
    );
    let lt = file_record::by_size();
    let items = files@.filter(filter_duplicates::not_empty());
    let some: FileRecord = arbitrary();
    let x = FileRecord { size, ..some };
    let tie = |y: FileRecord| sorting::tied(lt, x, y);
    file_record::tied_by_size(x, x);
    grouping::a_class_is_kept_whole_or_not_at_all(lt, items, x);
    lists::lemma_same_filter(kept@, of_size(size), tie);
    lists::lemma_same_filter(items, of_size(size), tie);
    if size > 0 {
        folder::lemma_filter_twice(
            files@,
            filter_duplicates::not_empty(),
            of_size(size),
            of_size(size),
        );
    } else {
        laws::lemma_size_candidates(files@);
        assert forall|i: int| 0 <= i < kept@.len() implies !of_size(size)(#[trigger] kept@[i]) by {
            assert(filter_duplicates::not_empty()(kept@[i]));
        }
        sorting::lemma_filter_none(kept@, of_size(size));
    }
    assert forall|i: int, j: int| 0 <= i < j < kept@.len() implies (#[trigger] kept@[i]).size <= (
    #[trigger] kept@[j]).size by {
        assert(!lt(kept@[j], kept@[i]));
    }
}

/// The second step keeps, of the files whose first bytes have the same hash, all where
/// they are two or more, as they stood, and none otherwise, nor any without that hash;
/// they are ordered by it. It hashes those of which the hash of the content is not
/// known.
pub proof fn the_second_step_keeps_equal_prefixes(
    files: Vec<FileRecord>,
    pass: &HashPass,
    kept: &Vec<FileRecord>,
    pending: &Vec<usize>,
    next: Option<usize>,
    num_commands: i32,
    hash: Seq<char>,
)
    requires
        call_ensures(step2, (files,), *pass),
        call_ensures(HashPass::files, (pass,), kept),
        call_ensures(HashPass::pending, (pass,), pending),
        call_ensures(HashPass::next, (pass,), next),
        call_ensures(HashPass::num_commands, (pass,), num_commands),
    ensures
        kept@.filter(of_prefix(hash)) == if files@.filter(of_prefix(hash)).len() >= 2 {
            files@.filter(of_prefix(hash))
        } else {
            Seq::<FileRecord>::empty()
        },
        forall|i: int| 0 <= i < kept@.len() ==> (#[trigger] kept@[i]).hash_4096 is Some,
        forall|i: int, j: int|
            0 <= i < j < kept@.len() ==> !lists::hash_comes_first(
                (#[trigger] kept@[j]).hash_4096,
                (#[trigger] kept@[i]).hash_4096,
            ),
        has_begun(kept@, |f: FileRecord| f.hash is None, pending@, next, num_commands),
{
    lemma_begun(
        pass,
        HashStage::Full,
        filter_duplicates::prefix_candidates(files@),
        kept,
        pending,
        next,
        num_commands,
    );
    let lt = file_record::by_hash_4096();
    let items = files@.filter(filter_duplicates::has_hash_4096());
    let some: FileRecord = arbitrary();
    file_record::tied_by_hash_4096(some, some);
    laws::lemma_prefix_candidates(files@);
    assert forall|i: int| 0 <= i < kept@.len() implies (#[trigger] kept@[i]).hash_4096 is Some by {
        assert(filter_duplicates::has_hash_4096()(kept@[i]));
    }
    folder::lemma_filter_twice(
        files@,
        filter_duplicates::has_hash_4096(),
        of_prefix(hash),
        of_prefix(hash),
    );
    if exists|i: int| 0 <= i < items.len() && of_prefix(hash)(#[trigger] items[i]) {
        let i = choose|i: int| 0 <= i < items.len() && of_prefix(hash)(#[trigger] items[i]);
        let x = items[i];
        let tie = |y: FileRecord| sorting::tied(lt, x, y);
        grouping::a_class_is_kept_whole_or_not_at_all(lt, items, x);
        assert forall|j: int| 0 <= j < kept@.len() implies of_prefix(hash)(#[trigger] kept@[j])
            == tie(kept@[j]) by {
            file_record::tied_by_hash_4096(x, kept@[j]);
        }
        assert forall|j: int| 0 <= j < items.len() implies of_prefix(hash)(#[trigger] items[j])
            == tie(items[j]) by {
            file_record::tied_by_hash_4096(x, items[j]);
        }
        lists::lemma_same_filter(kept@, of_prefix(hash), tie);
        lists::lemma_same_filter(items, of_prefix(hash), tie);
    } else {
        grouping::a_class_is_kept_whole_or_not_at_all(lt, items, some);
        laws::kept_items_are_items(lt, items);
        sorting::lemma_filter_none(items, of_prefix(hash));
        assert forall|j: int| 0 <= j < kept@.len() implies !of_prefix(hash)(#[trigger] kept@[j]) by {
            assert(kept@.contains(kept@[j]));
            let i = choose|i: int| 0 <= i < items.len() && items[i] == kept@[j];
            assert(!of_prefix(hash)(items[i]));
        }
        sorting::lemma_filter_none(kept@, of_prefix(hash));
    }
    assert forall|i: int, j: int| 0 <= i < j < kept@.len() implies !lists::hash_comes_first(
        (#[trigger] kept@[j]).hash_4096,
        (#[trigger] kept@[i]).hash_4096,
    ) by {
        assert(!lt(kept@[j], kept@[i]));
        lists::lemma_hash_order(kept@[j].hash_4096, kept@[i].hash_4096);
    }
}

/// A hash goes to the file that was handed out and to no other, and the pass goes on
/// behind it. The hash of the first bytes is that of the content too where the file has
/// no more than 4096 bytes; the hash of the content leaves that of the first bytes as
/// it was.
pub proof fn a_hash_goes_to_its_file(
    pass: filter_duplicates::PassModel,
    hash: Option<String>,
    at: usize,
)
    requires
        pass.valid(),
        pass.next() == Some(at),
    ensures
        ({
            let after = pass.hashed(hash);
            let before = pass.files[at as int];
            &&& after.files.len() == pass.files.len()
            &&& forall|i: int|
                0 <= i < pass.files.len() && i != at ==> #[trigger] after.files[i] == pass.files[i]
            &&& after.files[at as int].path == before.path
            &&& after.files[at as int].size == before.size
            &&& hash is None ==> after.files[at as int] == before
            &&& hash is Some && pass.stage is Short ==> after.files[at as int].hash_4096 == hash
                && after.files[at as int].hash == if before.size <= 4096 {
                hash
            } else {
                before.hash
            }
            &&& hash is Some && pass.stage is Full ==> after.files[at as int].hash == hash
                && after.files[at as int].hash_4096 == before.hash_4096
            &&& after.pending == pass.pending
            &&& pass.pending[pass.done] == at
            &&& after.next() == if pass.done + 1 < pass.pending.len() {
                Some(pass.pending[pass.done + 1])
            } else {
                None
            }
            &&& after.num_commands == pass.num_commands
            &&& after.stage == pass.stage
        }),
{
}

/// Where no file is left, a hash changes nothing.
pub proof fn nothing_is_hashed_behind_the_last_file(
    pass: filter_duplicates::PassModel,
    hash: Option<String>,
)
    requires
        pass.valid(),
        pass.next() is None,
    ensures
        pass.hashed(hash) == pass,
        pass.done == pass.pending.len(),
{
}

/// Updates are committed where as many are stored as the limit of the step, or more
/// than five seconds went by since the last commit; then they are counted anew. The
/// files stay as they are.
pub proof fn updates_are_committed_in_time(
    pass: filter_duplicates::PassModel,
    elapsed_nanos: u128,
)
    requires
        pass.valid(),
    ensures
        ({
            let limit: int = match pass.stage {
                HashStage::Short => 15_000,
                HashStage::Full => 5_000,
            };
            let after = pass.stored(elapsed_nanos);
            let commits = pass.commits(elapsed_nanos);
            &&& commits <==> pass.num_commands + 1 >= limit || elapsed_nanos > 5_000_000_000
            &&& commits ==> after.num_commands == 0
            &&& !commits ==> after.num_commands == pass.num_commands + 1 && after.num_commands
                < limit
            &&& after.files == pass.files
            &&& after.pending == pass.pending
            &&& after.next() == pass.next()
            &&& after.stage == pass.stage
        }),
{
}

/// What handing a hash to a pass does: the position of the file comes back where it is
/// to be stored, and the pass is as it was but for that file and what comes next.
pub proof fn a_pass_takes_a_hash(
    pass: &mut HashPass,
    hash: Option<String>,
    store: Option<usize>,
    at: usize,
)
    requires
        old(pass)@.valid(),
        old(pass)@.next() == Some(at),
        call_ensures(HashPass::hashed, (pass, hash), store),
    ensures
        store == if hash is Some {
            Some(at)
        } else {
            None
        },
        final(pass)@.valid(),
        final(pass)@.files.len() == old(pass)@.files.len(),
        forall|i: int|
            0 <= i < old(pass)@.files.len() && i != at ==> #[trigger] final(pass)@.files[i]
                == old(pass)@.files[i],
        final(pass)@.files[at as int].path == old(pass)@.files[at as int].path,
        final(pass)@.files[at as int].size == old(pass)@.files[at as int].size,
        hash is None ==> final(pass)@.files[at as int] == old(pass)@.files[at as int],
        hash is Some && old(pass)@.stage is Short ==> final(pass)@.files[at as int].hash_4096
            == hash,
        hash is Some && old(pass)@.stage is Short && old(pass)@.files[at as int].size <= 4096
            ==> final(pass)@.files[at as int].hash == hash,
        hash is Some && old(pass)@.stage is Short && old(pass)@.files[at as int].size > 4096
            ==> final(pass)@.files[at as int].hash == old(pass)@.files[at as int].hash,
        hash is Some && old(pass)@.stage is Full ==> final(pass)@.files[at as int].hash == hash
            && final(pass)@.files[at as int].hash_4096 == old(pass)@.files[at as int].hash_4096,
        final(pass)@.pending == old(pass)@.pending,
        final(pass)@.done == old(pass)@.done + 1,
        final(pass)@.num_commands == old(pass)@.num_commands,
        final(pass)@.stage == old(pass)@.stage,
{
    a_hash_goes_to_its_file(old(pass)@, hash, at);
}

/// What counting a stored update does: it says whether to commit now, and changes
/// nothing but the count.
pub proof fn a_pass_counts_an_update(pass: &mut HashPass, elapsed_nanos: u128, commit: bool)
    requires
        old(pass)@.valid(),
        call_ensures(HashPass::stored, (pass, elapsed_nanos), commit),
    ensures
        old(pass)@.stage is Short ==> (commit <==> old(pass)@.num_commands + 1 >= 15_000
            || elapsed_nanos > 5_000_000_000),
        old(pass)@.stage is Full ==> (commit <==> old(pass)@.num_commands + 1 >= 5_000
            || elapsed_nanos > 5_000_000_000),
        final(pass)@.num_commands == if commit {
            0
        } else {
            old(pass)@.num_commands + 1
        },
        final(pass)@.valid(),
        final(pass)@.files == old(pass)@.files,
        final(pass)@.pending == old(pass)@.pending,
        final(pass)@.done == old(pass)@.done,
        final(pass)@.stage == old(pass)@.stage,
{
    updates_are_committed_in_time(old(pass)@, elapsed_nanos);
}

/// The steps start passes of their own kind: the first over the first bytes, the second
/// over the contents.
pub proof fn each_step_starts_its_own_pass(
    files: Vec<FileRecord>,
    first: HashPass,
    second: HashPass,
)
    requires
        call_ensures(step1, (files,), first),
        call_ensures(step2, (files,), second),
    ensures
        first@.stage is Short,
        first@.done == 0,
        first@.valid(),
        second@.stage is Full,
        second@.done == 0,
        second@.valid(),
{
}

/// What is handed out of a pass is what it holds.
pub proof fn a_pass_hands_out_what_it_holds(
    pass: HashPass,
    files: &Vec<FileRecord>,
    pending: &Vec<usize>,
    num_commands: i32,
    next: Option<usize>,
    out: Vec<FileRecord>,
)
    requires
        call_ensures(HashPass::files, (&pass,), files),
        call_ensures(HashPass::pending, (&pass,), pending),
        call_ensures(HashPass::num_commands, (&pass,), num_commands),
        call_ensures(HashPass::next, (&pass,), next),
        call_ensures(HashPass::into_files, (pass,), out),
    ensures
        files@ == pass@.files,
        out@ == files@,
        pending@ == pass@.pending,
        num_commands == pass@.num_commands,
        next == if 0 <= pass@.done < pending@.len() {
            Some(pending@[pass@.done])
        } else {
            None
        },
{
}

} // verus!
