//! What is taken in of a folder, and what the cache is told.
use crate::config::Config;
use crate::file_record;
use crate::file_record::FileRecord;
use crate::laws;
use crate::outcomes::choice;
use crate::outcomes::lists;
use crate::path::FilePath;
use crate::scan;
use crate::scan::{add_folder, CacheCommand, FolderScan, WalkEntry};
use vstd::prelude::*;

verus! {

/// The size of an entry; zero where it could not be read.
pub open spec fn size_of_entry(entry: WalkEntry) -> u64 {
    match entry.size {
        Some(size) => size,
        None => 0,
    }
}

/// The entries that are taken in: regular files that are looked at and are not smaller
/// than asked for.
pub open spec fn taken_in(config: Config) -> spec_fn(WalkEntry) -> bool {
    |e: WalkEntry|
        e.is_file && choice::looked_at(config, e.path, e.is_symlink) && size_of_entry(e)
            >= config.min_size
}

/// The paths agree in all that is known of them.
pub open spec fn same_path(a: FilePath, b: FilePath) -> bool {
    &&& a.id == b.id
    &&& a.name@ == b.name@
    &&& a.unicode == b.unicode
    &&& a.components@.len() == b.components@.len()
    &&& forall|i: int|
        0 <= i < a.components@.len() ==> choice::same_component(
            #[trigger] a.components@[i],
            b.components@[i],
        )
}

/// The records agree in all that they say.
pub open spec fn same_fields(a: FileRecord, b: FileRecord) -> bool {
    &&& same_path(a.path, b.path)
    &&& a.size == b.size
    &&& lists::text_of(a.hash) == lists::text_of(b.hash)
    &&& lists::text_of(a.hash_4096) == lists::text_of(b.hash_4096)
}

/// Some of the files is shown under the name.
pub open spec fn is_shown(files: Seq<FileRecord>, name: Seq<char>) -> bool {
    exists|k: int| 0 <= k < files.len() && (#[trigger] files[k]).path.name@ == name
}

/// The file `k` is the last that is shown under the name.
pub open spec fn last_shown(files: Seq<FileRecord>, name: Seq<char>, k: int) -> bool {
    &&& 0 <= k < files.len()
    &&& files[k].path.name@ == name
    &&& forall|i: int| k < i < files.len() ==> (#[trigger] files[i]).path.name@ != name
}

/// Paths that stand for the same agree in all that is known of them.
pub proof fn lemma_same_path(a: FilePath, b: FilePath)
    requires
        a@ == b@,
    ensures
        same_path(a, b),
{
    let x = a@.components;
    let y = b@.components;
    assert(x.len() == a.components@.len() && y.len() == b.components@.len());
    assert forall|i: int| 0 <= i < a.components@.len() implies choice::same_component(
        #[trigger] a.components@[i],
        b.components@[i],
    ) by {
        assert(x[i] == y[i]);
        choice::lemma_same_component(a.components@[i], b.components@[i]);
    }
}

/// Records that stand for the same agree in all that they say.
pub proof fn lemma_same_fields(a: FileRecord, b: FileRecord)
    requires
        a@ == b@,
    ensures
        same_fields(a, b),
{
    lemma_same_path(a.path, b.path);
}

/// The last file that is shown under a name is the one that is found under it.
pub proof fn lemma_last_shown(files: Seq<FileRecord>, name: Seq<char>)
    ensures
        forall|k: int|
            #![trigger last_shown(files, name, k)]
            last_shown(files, name, k) <==> scan::last_named(file_record::models(files), name)
                == Some(k),
        is_shown(files, name) <==> scan::last_named(file_record::models(files), name) is Some,
{
    let m = file_record::models(files);
    scan::lemma_last_named(m, name);
    assert forall|i: int| 0 <= i < files.len() implies (#[trigger] files[i]).path.name@
        == m[i].path.name by {}
    assert forall|k: int|
        #![trigger last_shown(files, name, k)]
        last_shown(files, name, k) <==> scan::last_named(m, name) == Some(k) by {
        if last_shown(files, name, k) {
            assert(m[k].path.name == name);
            let j = scan::last_named(m, name)->0;
            if j < k {
                assert(m[k].path.name != name);
            } else if k < j {
                assert(files[j].path.name@ == m[j].path.name);
            }
        }
        if scan::last_named(m, name) == Some(k) {
            assert(files[k].path.name@ == m[k].path.name);
            assert forall|i: int| k < i < files.len() implies (#[trigger] files[i]).path.name@
                != name by {
                assert(m[i].path.name != name);
            }
        }
    }
    if let Some(k) = scan::last_named(m, name) {
        assert(files[k].path.name@ == m[k].path.name);
    }
    if is_shown(files, name) {
        let k = choose|k: int| 0 <= k < files.len() && (#[trigger] files[k]).path.name@ == name;
        assert(m[k].path.name == name);
    }
}

/// Selecting and translating can change places.
pub proof fn lemma_filter_of_mapped<A, B>(
    s: Seq<A>,
    f: spec_fn(A) -> B,
    p: spec_fn(B) -> bool,
    q: spec_fn(A) -> bool,
)
    requires
        forall|i: int| 0 <= i < s.len() ==> p(f(#[trigger] s[i])) == q(s[i]),
    ensures
        s.map_values(f).filter(p) == s.filter(q).map_values(f),
    decreases s.len(),
{
    reveal(Seq::filter);
    if s.len() > 0 {
        let rest = s.drop_last();
        assert forall|i: int| 0 <= i < rest.len() implies p(f(#[trigger] rest[i])) == q(rest[i]) by {
            assert(rest[i] == s[i]);
        }
        lemma_filter_of_mapped(rest, f, p, q);
        assert(s.map_values(f).drop_last() =~= rest.map_values(f));
        assert(p(f(s[s.len() - 1])) == q(s[s.len() - 1]));
        if q(s.last()) {
            assert(s.filter(q) == rest.filter(q).push(s.last()));
            assert(s.filter(q).map_values(f) =~= rest.filter(q).map_values(f).push(f(s.last())));
        }
    } else {
        assert(s.map_values(f).filter(p) =~= s.filter(q).map_values(f));
    }
}

proof fn lemma_taken(config: Config, entries: Seq<WalkEntry>)
    ensures
        scan::entry_models(entries).filter(scan::is_taken(config@)) == entries.filter(
            taken_in(config),
        ).map_values(|e: WalkEntry| e@),
{
    let f = |e: WalkEntry| e@;
    assert forall|i: int| 0 <= i < entries.len() implies scan::is_taken(config@)(
        f(#[trigger] entries[i]),
    ) == taken_in(config)(entries[i]) by {
        choice::lemma_looked_at(config, entries[i].path, entries[i].is_symlink);
    }
    lemma_filter_of_mapped(entries, f, scan::is_taken(config@), taken_in(config));
}

/// A scan gives a record of each file that is taken in, in the order of the walk. Of a
/// file that the cache does not know, the record has the path and the size of the
/// entry and no hash; a size beyond the signed range wraps. Of a file that it knows, it
/// is the last record under its name.
pub proof fn a_scan_records_what_is_taken_in(
    config: &Config,
    known: &Vec<FileRecord>,
    entries: &Vec<WalkEntry>,
    result: FolderScan,
)
    requires
        call_ensures(add_folder, (config, known, entries), result),
    ensures
        ({
            let taken = entries@.filter(taken_in(*config));
            &&& result.files@.len() == taken.len()
            &&& forall|i: int|
                0 <= i < taken.len() && !is_shown(known@, (#[trigger] taken[i]).path.name@) ==> {
                    let file = result.files@[i];
                    let size = size_of_entry(taken[i]);
                    &&& same_path(file.path, taken[i].path)
                    &&& file.hash is None
                    &&& file.hash_4096 is None
                    &&& file.size as int == if size <= i64::MAX {
                        size as int
                    } else {
                        size - 0x1_0000_0000_0000_0000
                    }
                }
            &&& forall|i: int, k: int|
                0 <= i < taken.len() && #[trigger] last_shown(
                    known@,
                    (#[trigger] taken[i]).path.name@,
                    k,
                ) ==> same_fields(result.files@[i], known@[k])
        }),
{
    let taken = entries@.filter(taken_in(*config));
    let cached = file_record::models(known@);
    let models = file_record::models(result.files@);
    lemma_taken(*config, entries@);
    assert(models.len() == result.files@.len());
    assert(models.len() == taken.len());
    assert forall|i: int| 0 <= i < taken.len() && !is_shown(
        known@,
        (#[trigger] taken[i]).path.name@,
    ) implies {
        let file = result.files@[i];
        let size = size_of_entry(taken[i]);
        &&& same_path(file.path, taken[i].path)
        &&& file.hash is None
        &&& file.hash_4096 is None
        &&& file.size as int == if size <= i64::MAX {
            size as int
        } else {
            size - 0x1_0000_0000_0000_0000
        }
    } by {
        lemma_last_shown(known@, taken[i].path.name@);
        assert(models[i] == scan::record_of(cached)(taken[i]@));
        assert(models[i] == result.files@[i]@);
        assert(result.files@[i]@ == scan::new_record(taken[i]@));
        lemma_same_path(result.files@[i].path, taken[i].path);
        let size = size_of_entry(taken[i]);
        assert(size > 0x7fff_ffff_ffff_ffff ==> size as i64 == size - 0x1_0000_0000_0000_0000)
            by (bit_vector);
    }
    assert forall|i: int, k: int|
        0 <= i < taken.len() && #[trigger] last_shown(
            known@,
            (#[trigger] taken[i]).path.name@,
            k,
        ) implies same_fields(result.files@[i], known@[k]) by {
        lemma_last_shown(known@, taken[i].path.name@);
        assert(models[i] == scan::record_of(cached)(taken[i]@));
        assert(models[i] == result.files@[i]@);
        lemma_same_fields(result.files@[i], known@[k]);
    }
}

/// The commands insert the files at the positions, one after the other, with a commit
/// behind each ten thousand of them and one at the end.
pub open spec fn inserts_in_batches(commands: Seq<CacheCommand>, positions: Seq<usize>) -> bool {
    &&& commands.len() == positions.len() + positions.len() / 10_000 + 1
    &&& commands.last() is Commit
    &&& forall|n: int|
        0 <= n < commands.len() - 1 ==> #[trigger] commands[n] == if n % 10_001 == 10_000 {
            CacheCommand::Commit
        } else {
            CacheCommand::Insert(positions[n - n / 10_001])
        }
}

proof fn lemma_batches(positions: Seq<usize>)
    ensures
        inserts_in_batches(
            scan::insert_commands(positions).push(CacheCommand::Commit),
            positions,
        ),
    decreases positions.len(),
{
    let commands = scan::insert_commands(positions);
    let p = positions.len() as int;
    if p > 0 {
        let fewer = positions.drop_last();
        let before = scan::insert_commands(fewer);
        lemma_batches(fewer);
        let earlier = before.push(CacheCommand::Commit);
        assert(earlier.len() == before.len() + 1);
        let b = before.len() as int;
        assert(b == (p - 1) + (p - 1) / 10_000);
        assert(b % 10_001 != 10_000 && b - b / 10_001 == p - 1) by {
            let q = (p - 1) / 10_000;
            let r = (p - 1) % 10_000;
            assert(b == 10_001 * q + r);
        }
        assert forall|n: int| 0 <= n < commands.len() implies #[trigger] commands[n] == if n % 10_001
            == 10_000 {
            CacheCommand::Commit
        } else {
            CacheCommand::Insert(positions[n - n / 10_001])
        } by {
            if n < b {
                assert(commands[n] == before[n]);
                assert(earlier[n] == before[n]);
                if n % 10_001 != 10_000 {
                    assert(n - n / 10_001 < p - 1);
                    assert(fewer[n - n / 10_001] == positions[n - n / 10_001]);
                }
            } else if n == b {
                assert(commands[n] == CacheCommand::Insert(positions.last()));
            } else {
                assert(n == b + 1);
                assert(p % 10_000 == 0);
                assert(commands[n] is Commit);
                assert(n % 10_001 == 10_000) by {
                    let q = (p - 1) / 10_000;
                    assert((p - 1) % 10_000 == 9_999);
                    assert(n == 10_001 * q + 10_000);
                }
            }
        }
    }
    let all = commands.push(CacheCommand::Commit);
    assert forall|n: int| 0 <= n < all.len() - 1 implies #[trigger] all[n] == if n % 10_001
        == 10_000 {
        CacheCommand::Commit
    } else {
        CacheCommand::Insert(positions[n - n / 10_001])
    } by {
        assert(all[n] == commands[n]);
    }
}

proof fn lemma_positions_ascend(
    known: Seq<file_record::RecordModel>,
    taken: Seq<scan::EntryModel>,
)
    requires
        taken.len() <= usize::MAX,
    ensures
        forall|j: int| 0 <= j < scan::new_positions(known, taken).len() ==> (
        #[trigger] scan::new_positions(known, taken)[j]) < taken.len(),
        forall|j: int, k: int|
            0 <= j < k < scan::new_positions(known, taken).len() ==> (
            #[trigger] scan::new_positions(known, taken)[j]) < (#[trigger] scan::new_positions(
                known,
                taken,
            )[k]),
    decreases taken.len(),
{
    if taken.len() > 0 {
        let fewer = taken.drop_last();
        lemma_positions_ascend(known, fewer);
        let rest = scan::new_positions(known, fewer);
        let all = scan::new_positions(known, taken);
        let n = (taken.len() - 1) as usize;
        assert(all == rest || all == rest.push(n));
        assert forall|j: int| 0 <= j < all.len() implies (#[trigger] all[j]) < taken.len() by {
            if j < rest.len() {
                assert(all[j] == rest[j]);
            }
        }
        assert forall|j: int, k: int| 0 <= j < k < all.len() implies (#[trigger] all[j]) < (
        #[trigger] all[k]) by {
            assert(all[j] == rest[j]);
            if k < rest.len() {
                assert(all[k] == rest[k]);
            }
        }
    }
}

/// The cache is told to insert the files that it does not know and no others, each
/// once and in order, and to commit them in batches.
pub proof fn a_scan_inserts_what_is_not_known(
    config: &Config,
    known: &Vec<FileRecord>,
    entries: &Vec<WalkEntry>,
    result: FolderScan,
)
    requires
        call_ensures(add_folder, (config, known, entries), result),
    ensures
        ({
            let taken = entries@.filter(taken_in(*config));
            exists|positions: Seq<usize>|
                {
                    &&& #[trigger] inserts_in_batches(result.commands@, positions)
                    &&& forall|j: int, k: int|
                        0 <= j < k < positions.len() ==> positions[j] < positions[k]
                    &&& forall|i: usize| #[trigger]
                        positions.contains(i) <==> i < taken.len() && !is_shown(
                            known@,
                            taken[i as int].path.name@,
                        )
                }
        }),
{
    let taken = entries@.filter(taken_in(*config));
    let models = scan::entry_models(entries@).filter(scan::is_taken(config@));
    let cached = file_record::models(known@);
    lemma_taken(*config, entries@);
    entries@.lemma_filter_len(taken_in(*config));
    let positions = scan::new_positions(cached, models);
    assert(entries.len() == entries@.len());
    assert(models.len() == taken.len());
    laws::new_positions_are_the_unknown_files(cached, models);
    lemma_positions_ascend(cached, models);
    lemma_batches(positions);
    assert forall|i: usize| #[trigger] positions.contains(i) <==> i < taken.len() && !is_shown(
        known@,
        taken[i as int].path.name@,
    ) by {
        if i < taken.len() {
            assert(models[i as int] == taken[i as int]@);
            lemma_last_shown(known@, taken[i as int].path.name@);
        }
    }
    assert(inserts_in_batches(result.commands@, positions));
}

/// A record is named and copied as it is.
pub proof fn a_record_is_named_and_copied_as_it_is(
    file: &FileRecord,
    name: String,
    copy: FileRecord,
)
    requires
        call_ensures(FileRecord::path_name, (file,), name),
        call_ensures(<FileRecord as Clone>::clone, (file,), copy),
    ensures
        name@ == file.path.name@,
        same_fields(copy, *file),
{
    lemma_same_fields(copy, *file);
}

/// A path is copied as it is.
pub proof fn a_path_is_copied_as_it_is(path: &FilePath, copy: FilePath)
    requires
        call_ensures(<FilePath as Clone>::clone, (path,), copy),
    ensures
        same_path(copy, *path),
{
    lemma_same_path(copy, *path);
}

/// Two records are equal exactly where they say the same of one path.
pub proof fn equal_records_say_the_same(
    a: &FileRecord,
    b: &FileRecord,
    equal: bool,
    same: bool,
)
    requires
        call_ensures(<FileRecord as PartialEq>::eq, (a, b), equal),
        call_ensures(<FilePath as PartialEq>::eq, (&a.path, &b.path), same),
    ensures
        equal <==> same && a.size == b.size && lists::text_of(a.hash) == lists::text_of(b.hash)
            && lists::text_of(a.hash_4096) == lists::text_of(b.hash_4096),
{
}

/// The size of an entry is what was read of it, or zero.
pub proof fn an_unknown_size_is_zero(entry: &WalkEntry, size: u64)
    requires
        call_ensures(WalkEntry::known_size, (entry,), size),
    ensures
        size == size_of_entry(*entry),
{
}

} // verus!
