//! What is said of the entries of a folder.
use crate::config::Config;
use crate::dir_report;
use crate::dir_report::{report_duplication_status_in_dir, DirReport, EntryStatus};
use crate::file_record;
use crate::file_record::FileRecord;
use crate::outcomes::choice;
use crate::outcomes::intake;
use crate::outcomes::lists;
use crate::path::FilePath;
use crate::scan;
use crate::scan::{index_names, WalkEntry};
use crate::sorting;
use vstd::hash_map::StringHashMap;
use vstd::prelude::*;

verus! {

/// The entry is left out: it is empty, too small, or not looked at.
pub open spec fn left_out(config: Config, entry: WalkEntry) -> bool {
    ||| intake::size_of_entry(entry) == 0
    ||| intake::size_of_entry(entry) < config.min_size
    ||| !choice::looked_at(config, entry.path, entry.is_symlink)
}

/// The file has the same hash as `file`, and that is known.
pub open spec fn shares_hash(file: FileRecord) -> spec_fn(FileRecord) -> bool {
    |f: FileRecord|
        lists::text_of(f.hash) is Some && lists::text_of(f.hash) == lists::text_of(file.hash)
}

/// The file is a copy of `file` outside the folder.
pub open spec fn copies_from_outside(file: FileRecord, folder: FilePath) -> spec_fn(
    FileRecord,
) -> bool {
    |f: FileRecord| shares_hash(file)(f) && !choice::lies_in(f.path, folder)
}

/// Passing two tests is passing both.
pub proof fn lemma_filter_twice<T>(
    s: Seq<T>,
    p: spec_fn(T) -> bool,
    q: spec_fn(T) -> bool,
    both: spec_fn(T) -> bool,
)
    requires
        forall|i: int| 0 <= i < s.len() ==> both(#[trigger] s[i]) == (p(s[i]) && q(s[i])),
    ensures
        s.filter(p).filter(q) == s.filter(both),
    decreases s.len(),
{
    reveal(Seq::filter);
    if s.len() > 0 {
        let rest = s.drop_last();
        assert forall|i: int| 0 <= i < rest.len() implies both(#[trigger] rest[i]) == (p(rest[i])
            && q(rest[i])) by {
            assert(rest[i] == s[i]);
        }
        lemma_filter_twice(rest, p, q, both);
        assert(both(s[s.len() - 1]) == (p(s[s.len() - 1]) && q(s[s.len() - 1])));
        if p(s.last()) {
            assert(s.filter(p) == rest.filter(p).push(s.last()));
            assert(s.filter(p).drop_last() =~= rest.filter(p));
        }
    }
}

proof fn lemma_shares_hash(files: Seq<FileRecord>, file: FileRecord, folder: FilePath)
    requires
        file.hash is Some,
    ensures
        dir_report::with_hash(files, file@.hash->0) == files.filter(shares_hash(file)),
        dir_report::with_hash(files, file@.hash->0).filter(
            |f: FileRecord| !f@.path.starts_with(folder@),
        ) == files.filter(copies_from_outside(file, folder)),
{
    let hash = file@.hash->0;
    let same = |f: FileRecord| f@.hash == Some(hash);
    let outside = |f: FileRecord| !f@.path.starts_with(folder@);
    lists::lemma_same_filter(files, same, shares_hash(file));
    assert forall|i: int| 0 <= i < files.len() implies copies_from_outside(file, folder)(
        #[trigger] files[i],
    ) == (same(files[i]) && outside(files[i])) by {
        choice::lemma_lies_in(files[i].path, folder);
    }
    lemma_filter_twice(files, same, outside, copies_from_outside(file, folder));
}

/// Of each entry one thing is said. A directory is one. Of the others, those are left
/// out that are empty, too small, a link, in none of the folders or matched by an
/// exclusion, and no others. What remains has copies where the last record under its
/// name shares its hash with another record and some of those with that hash lie
/// outside the folder; then these are listed by name, in their order. Otherwise it is
/// the only copy.
pub proof fn each_entry_has_its_status(
    config: &Config,
    folder: &FilePath,
    files: &Vec<FileRecord>,
    entries: &Vec<WalkEntry>,
    report: DirReport,
)
    requires
        call_ensures(report_duplication_status_in_dir, (config, folder, files, entries), report),
    ensures
        report.statuses@.len() == entries@.len(),
        forall|i: int|
            0 <= i < entries@.len() ==> ((#[trigger] report.statuses@[i]) is Directory
                <==> entries@[i].is_dir),
        forall|i: int|
            0 <= i < entries@.len() ==> ((#[trigger] report.statuses@[i]) is Ignored
                <==> !entries@[i].is_dir && left_out(*config, entries@[i])),
        forall|i: int|
            0 <= i < entries@.len() && !intake::is_shown(files@, entries@[i].path.name@) ==> (
            #[trigger] report.statuses@[i]) !is Copies,
        forall|i: int, k: int|
            0 <= i < entries@.len() && !entries@[i].is_dir && !left_out(*config, entries@[i])
                && #[trigger] intake::last_shown(files@, entries@[i].path.name@, k) ==> {
                let sharing = files@.filter(shares_hash(files@[k]));
                let copies = files@.filter(copies_from_outside(files@[k], *folder));
                match #[trigger] report.statuses@[i] {
                    EntryStatus::Copies(names) => {
                        &&& sharing.len() >= 2
                        &&& copies.len() > 0
                        &&& names@.len() == copies.len()
                        &&& forall|m: int|
                            0 <= m < copies.len() ==> (#[trigger] names@[m])@
                                == copies[m].path.name@
                    },
                    EntryStatus::OnlyCopy => sharing.len() < 2 || copies.len() == 0,
                    _ => false,
                }
            },
{
    let say = dir_report::status_of(config@, folder@, files@);
    let models = dir_report::status_models(report.statuses@);
    let all = scan::entry_models(entries@);
    assert(models.len() == report.statuses@.len());
    assert(models.len() == entries@.len());
    assert forall|i: int| 0 <= i < entries@.len() implies (#[trigger] report.statuses@[i])@ == say(
        entries@[i]@,
    ) && (config@.is_included(entries@[i]@.path, entries@[i].is_symlink) <==> choice::looked_at(
        *config,
        entries@[i].path,
        entries@[i].is_symlink,
    )) by {
        assert(models[i] == report.statuses@[i]@);
        assert(all[i] == entries@[i]@);
        choice::lemma_looked_at(*config, entries@[i].path, entries@[i].is_symlink);
    }
    assert forall|i: int|
        0 <= i < entries@.len() && !intake::is_shown(files@, entries@[i].path.name@) implies (
    #[trigger] report.statuses@[i]) !is Copies by {
        intake::lemma_last_shown(files@, entries@[i].path.name@);
        assert(report.statuses@[i]@ == say(entries@[i]@));
    }
    assert forall|i: int, k: int|
        0 <= i < entries@.len() && !entries@[i].is_dir && !left_out(*config, entries@[i])
            && #[trigger] intake::last_shown(files@, entries@[i].path.name@, k) implies {
        let sharing = files@.filter(shares_hash(files@[k]));
        let copies = files@.filter(copies_from_outside(files@[k], *folder));
        match #[trigger] report.statuses@[i] {
            EntryStatus::Copies(names) => {
                &&& sharing.len() >= 2
                &&& copies.len() > 0
                &&& names@.len() == copies.len()
                &&& forall|m: int|
                    0 <= m < copies.len() ==> (#[trigger] names@[m])@ == copies[m].path.name@
            },
            EntryStatus::OnlyCopy => sharing.len() < 2 || copies.len() == 0,
            _ => false,
        }
    } by {
        let name = entries@[i].path.name@;
        intake::lemma_last_shown(files@, name);
        assert(report.statuses@[i]@ == say(entries@[i]@));
        assert(dir_report::hash_of_named(files@, name) == files@[k]@.hash);
        let sharing = files@.filter(shares_hash(files@[k]));
        let copies = files@.filter(copies_from_outside(files@[k], *folder));
        if files@[k].hash is Some {
            lemma_shares_hash(files@, files@[k], *folder);
            if let EntryStatus::Copies(names) = report.statuses@[i] {
                let shown = names@.map_values(|n: String| n@);
                assert(shown == dir_report::names_of(copies));
                assert(shown.len() == names@.len());
                assert forall|m: int| 0 <= m < copies.len() implies (#[trigger] names@[m])@
                    == copies[m].path.name@ by {
                    assert(shown[m] == names@[m]@);
                    assert(dir_report::names_of(copies)[m] == copies[m]@.path.name);
                }
            }
        } else {
            sorting::lemma_filter_none(files@, shares_hash(files@[k]));
        }
    }
}

proof fn lemma_counted(statuses: Seq<EntryStatus>)
    ensures
        dir_report::how_many(
            dir_report::status_models(statuses),
            |s: dir_report::StatusModel| s is Copies,
        ) == statuses.filter(|s: EntryStatus| s is Copies).len(),
        dir_report::how_many(
            dir_report::status_models(statuses),
            |s: dir_report::StatusModel| s is OnlyCopy,
        ) == statuses.filter(|s: EntryStatus| s is OnlyCopy).len(),
        dir_report::how_many(
            dir_report::status_models(statuses),
            |s: dir_report::StatusModel| s is Ignored,
        ) == statuses.filter(|s: EntryStatus| s is Ignored).len(),
{
    let f = |s: EntryStatus| s@;
    intake::lemma_filter_of_mapped(
        statuses,
        f,
        |s: dir_report::StatusModel| s is Copies,
        |s: EntryStatus| s is Copies,
    );
    intake::lemma_filter_of_mapped(
        statuses,
        f,
        |s: dir_report::StatusModel| s is OnlyCopy,
        |s: EntryStatus| s is OnlyCopy,
    );
    intake::lemma_filter_of_mapped(
        statuses,
        f,
        |s: dir_report::StatusModel| s is Ignored,
        |s: EntryStatus| s is Ignored,
    );
}

/// The counts are those of the entries that have copies, have none, and are left out.
pub proof fn the_counts_are_those_of_the_statuses(
    config: &Config,
    folder: &FilePath,
    files: &Vec<FileRecord>,
    entries: &Vec<WalkEntry>,
    report: DirReport,
)
    requires
        call_ensures(report_duplication_status_in_dir, (config, folder, files, entries), report),
    ensures
        report.duplicated_files == report.statuses@.filter(|s: EntryStatus| s is Copies).len(),
        report.unique_files == report.statuses@.filter(|s: EntryStatus| s is OnlyCopy).len(),
        report.ignored_files == report.statuses@.filter(|s: EntryStatus| s is Ignored).len(),
{
    lemma_counted(report.statuses@);
}

/// A name leads to the last file that is shown under it, and to none where no file is.
pub proof fn a_name_leads_to_the_last_file(
    files: &Vec<FileRecord>,
    index: StringHashMap<usize>,
    name: Seq<char>,
)
    requires
        call_ensures(index_names, (files,), index),
    ensures
        index@.contains_key(name) <==> intake::is_shown(files@, name),
        index@.contains_key(name) ==> intake::last_shown(files@, name, index@[name] as int),
{
    intake::lemma_last_shown(files@, name);
    if let Some(k) = scan::last_named(file_record::models(files@), name) {
        assert(intake::last_shown(files@, name, k));
    }
}

} // verus!
