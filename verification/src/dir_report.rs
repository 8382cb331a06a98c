//! Reporting which files of a folder have copies elsewhere.
use crate::config;
use crate::config::Config;
use crate::file_record;
use crate::file_record::{ByHash, FileRecord};
use crate::filter_duplicates;
use crate::filter_duplicates::HasHash;
use crate::grouping;
use crate::grouping::find_duplicates_by;
use crate::path;
use crate::path::FilePath;
use crate::scan;
use crate::scan::{index_names, WalkEntry};
use crate::selection::{retain, Test};
use crate::sorting;
use crate::sorting::Order;
use vstd::hash_map::StringHashMap;
use vstd::prelude::*;

verus! {

/// What the references refer to.
pub open spec fn targets<'a>(files: Seq<&'a FileRecord>) -> Seq<FileRecord> {
    files.map_values(|f: &'a FileRecord| *f)
}

/// The files with the hash `hash`.
pub open spec fn with_hash(files: Seq<FileRecord>, hash: Seq<char>) -> Seq<FileRecord> {
    files.filter(|f: FileRecord| f@.hash == Some(hash))
}

/// `index` leads from each hash that at least two files have to the group of these
/// files.
pub open spec fn indexes_hashes<'a>(
    index: Map<Seq<char>, usize>,
    groups: Seq<Vec<&'a FileRecord>>,
    files: Seq<FileRecord>,
) -> bool {
    forall|hash: Seq<char>|
        if with_hash(files, hash).len() >= 2 {
            &&& #[trigger] index.contains_key(hash)
            &&& index[hash] < groups.len()
            &&& targets(groups[index[hash] as int]@) == with_hash(files, hash)
        } else {
            !index.contains_key(hash)
        }
}

fn references<'a>(files: &'a Vec<FileRecord>) -> (refs: Vec<&'a FileRecord>)
    ensures
        targets(refs@) == files@,
{
    let mut refs: Vec<&'a FileRecord> = Vec::new();
    let mut i: usize = 0;
    while i < files.len()
        invariant
            i <= files@.len(),
            targets(refs@) == files@.take(i as int),
        decreases files@.len() - i,
    {
        let ghost refs0 = refs@;
        refs.push(&files[i]);
        proof {
            assert(targets(refs@) =~= targets(refs0).push(files@[i as int]));
            assert(targets(refs@) =~= files@.take(i + 1));
        }
        i = i + 1;
    }
    proof {
        assert(files@.take(i as int) =~= files@);
    }
    refs
}

proof fn lemma_filter_targets<'a>(
    refs: Seq<&'a FileRecord>,
    p: spec_fn(&'a FileRecord) -> bool,
    q: spec_fn(&'a FileRecord) -> bool,
    r: spec_fn(FileRecord) -> bool,
)
    requires
        forall|f: &'a FileRecord| #[trigger] r(*f) == (p(f) && q(f)),
    ensures
        targets(refs.filter(p).filter(q)) == targets(refs).filter(r),
    decreases refs.len(),
{
    reveal(Seq::filter);
    if refs.len() > 0 {
        let rest = refs.drop_last();
        let x = refs.last();
        lemma_filter_targets(rest, p, q, r);
        assert(targets(refs).drop_last() =~= targets(rest));
        assert(targets(refs).last() == *x);
        assert(r(*x) == (p(x) && q(x)));
        if p(x) {
            assert(refs.filter(p) == rest.filter(p).push(x));
            assert(refs.filter(p).drop_last() =~= rest.filter(p));
            if q(x) {
                assert(refs.filter(p).filter(q) == rest.filter(p).filter(q).push(x));
                assert(targets(refs.filter(p).filter(q)) =~= targets(
                    rest.filter(p).filter(q),
                ).push(*x));
            }
        }
    } else {
        assert(targets(refs.filter(p).filter(q)) =~= targets(refs).filter(r));
    }
}

/// The class of a file with a hash among the references holds the files with that hash.
proof fn lemma_class_is_hash<'a>(refs: Seq<&'a FileRecord>, x: &'a FileRecord, hash: Seq<char>)
    requires
        x@.hash == Some(hash),
    ensures
        targets(
            sorting::class_of(
                <ByHash as Order<&'a FileRecord>>::lt(&ByHash),
                refs.filter(<HasHash as Test<&'a FileRecord>>::passing(&HasHash)),
                x,
            ),
        ) == with_hash(targets(refs), hash),
{
    let lt = <ByHash as Order<&'a FileRecord>>::lt(&ByHash);
    let p = <HasHash as Test<&'a FileRecord>>::passing(&HasHash);
    let q = |y: &'a FileRecord| sorting::tied(lt, x, y);
    let r = |f: FileRecord| f@.hash == Some(hash);
    assert forall|f: &'a FileRecord| #[trigger] r(*f) == (p(f) && q(f)) by {
        file_record::tied_by_hash(*x, *f);
    }
    lemma_filter_targets(refs, p, q, r);
}

/// Groups the files with the same hash.
fn group_by_hash<'a>(files: &'a Vec<FileRecord>) -> (result: (
    Vec<Vec<&'a FileRecord>>,
    StringHashMap<usize>,
))
    ensures
        indexes_hashes(result.1@, result.0@, files@),
{
    let refs = references(files);
    let ghost refs0 = refs@;
    let hashed = retain(&HasHash, refs);
    let ghost known = hashed@;
    let ghost lt = <ByHash as Order<&'a FileRecord>>::lt(&ByHash);
    let groups = find_duplicates_by(&ByHash, hashed);
    let ghost classes = grouping::contents(groups@);
    proof {
        <ByHash as Order<&'a FileRecord>>::order_laws(&ByHash);
        grouping::duplicate_groups_are_the_classes(lt, known);
        sorting::lemma_filter_holds(
            refs0,
            <HasHash as Test<&'a FileRecord>>::passing(&HasHash),
        );
        assert forall|i: int| 0 <= i < classes.len() implies (#[trigger] classes[i])[0].hash is Some by {
            lemma_class_member(lt, known, classes[i]);
        }
    }
    let mut index: StringHashMap<usize> = StringHashMap::new();
    let mut i: usize = 0;
    while i < groups.len()
        invariant
            i <= groups@.len(),
            classes == grouping::contents(groups@),
            lt == <ByHash as Order<&'a FileRecord>>::lt(&ByHash),
            grouping::groups_classes(lt, known, classes),
            forall|j: int| 0 <= j < classes.len() ==> (#[trigger] classes[j])[0].hash is Some,
            forall|hash: Seq<char>| #[trigger]
                index@.contains_key(hash) ==> index@[hash] < i && classes[index@[hash] as int][0]@.hash
                    == Some(hash),
            forall|j: int|
                0 <= j < i ==> index@.contains_key((#[trigger] classes[j])[0]@.hash->0)
                    && index@[classes[j][0]@.hash->0] == j,
        decreases groups@.len() - i,
    {
        proof {
            assert(classes[i as int] == groups@[i as int]@);
            assert(classes[i as int].len() >= 2);
        }
        if let Some(hash) = &groups[i][0].hash {
            index.insert(hash.clone(), i);
            proof {
                assert forall|j: int| 0 <= j < i + 1 implies index@.contains_key(
                    (#[trigger] classes[j])[0]@.hash->0,
                ) && index@[classes[j][0]@.hash->0] == j by {
                    if j < i {
                        assert(lt(classes[j][0], classes[i as int][0]));
                        file_record::tied_by_hash(*classes[j][0], *classes[i as int][0]);
                    }
                }
            }
        }
        i = i + 1;
    }
    proof {
        assert forall|hash: Seq<char>|
            if with_hash(files@, hash).len() >= 2 {
                &&& #[trigger] index@.contains_key(hash)
                &&& index@[hash] < groups@.len()
                &&& targets(groups@[index@[hash] as int]@) == with_hash(files@, hash)
            } else {
                !index@.contains_key(hash)
            } by {
            if with_hash(files@, hash).len() >= 2 {
                let f = with_hash(files@, hash)[0];
                sorting::lemma_filter_holds(files@, |f: FileRecord| f@.hash == Some(hash));
                assert(with_hash(files@, hash).contains(f));
                let k = choose|k: int| 0 <= k < files@.len() && files@[k] == f;
                assert(*refs0[k] == targets(refs0)[k]);
                let x = refs0[k];
                lemma_class_is_hash(refs0, x, hash);
                let class = sorting::class_of(lt, known, x);
                assert(refs0.contains(x));
                assert(known.contains(x));
                assert(class.len() == targets(class).len());
                assert(classes.contains(class));
                let j = choose|j: int| 0 <= j < classes.len() && classes[j] == class;
                lemma_class_member(lt, known, classes[j]);
                assert(class.contains(class[0]));
                sorting::lemma_filter_holds(known, |y: &'a FileRecord| sorting::tied(lt, x, y));
                file_record::tied_by_hash(*x, *class[0]);
                assert(classes[j][0]@.hash == Some(hash));
                assert(index@[hash] == j);
                assert(groups@[j]@ == classes[j]);
            } else if index@.contains_key(hash) {
                let j = index@[hash] as int;
                lemma_class_is_hash(refs0, classes[j][0], hash);
                assert(targets(classes[j]).len() == classes[j].len());
            }
        }
    }
    (groups, index)
}

proof fn lemma_class_member<'a>(
    lt: spec_fn(&'a FileRecord, &'a FileRecord) -> bool,
    known: Seq<&'a FileRecord>,
    class: Seq<&'a FileRecord>,
)
    requires
        class.len() >= 2,
        class == sorting::class_of(lt, known, class[0]),
    ensures
        known.contains(class[0]),
{
    sorting::lemma_filter_holds(known, |y: &'a FileRecord| sorting::tied(lt, class[0], y));
    assert(class.contains(class[0]));
}

/// What is said of an entry of the folder.
#[derive(Debug, PartialEq, Eq)]
pub enum EntryStatus {
    /// Nothing: it is a directory.
    Directory,
    /// It is left out.
    Ignored,
    /// It has no copy outside the folder.
    OnlyCopy,
    /// It has copies outside the folder; these are their paths.
    Copies(Vec<String>),
}

/// What a status stands for.
pub enum StatusModel {
    Directory,
    Ignored,
    OnlyCopy,
    Copies(Seq<Seq<char>>),
}

impl View for EntryStatus {
    type V = StatusModel;

    open spec fn view(&self) -> StatusModel {
        match self {
            EntryStatus::Directory => StatusModel::Directory,
            EntryStatus::Ignored => StatusModel::Ignored,
            EntryStatus::OnlyCopy => StatusModel::OnlyCopy,
            EntryStatus::Copies(names) => StatusModel::Copies(
                names@.map_values(|n: String| n@),
            ),
        }
    }
}

/// The files with the hash `hash` outside the folder, where at least two files have
/// that hash.
pub open spec fn copies_outside(
    files: Seq<FileRecord>,
    folder: path::PathModel,
    hash: Seq<char>,
) -> Seq<FileRecord> {
    if with_hash(files, hash).len() >= 2 {
        with_hash(files, hash).filter(|f: FileRecord| !f@.path.starts_with(folder))
    } else {
        Seq::empty()
    }
}

/// The paths of the files.
pub open spec fn names_of(files: Seq<FileRecord>) -> Seq<Seq<char>> {
    files.map_values(|f: FileRecord| f@.path.name)
}

/// The hash of the last file that is shown as `name`, where it is known.
pub open spec fn hash_of_named(files: Seq<FileRecord>, name: Seq<char>) -> Option<Seq<char>> {
    match scan::last_named(file_record::models(files), name) {
        Some(k) => files[k]@.hash,
        None => None,
    }
}

/// What is said of an entry of the folder.
pub open spec fn status_of(
    config: config::ConfigModel,
    folder: path::PathModel,
    files: Seq<FileRecord>,
) -> spec_fn(scan::EntryModel) -> StatusModel {
    |e: scan::EntryModel|
        if e.is_dir {
            StatusModel::Directory
        } else if e.size == 0 || e.size < config.min_size || !config.is_included(
            e.path,
            e.is_symlink,
        ) {
            StatusModel::Ignored
        } else {
            match hash_of_named(files, e.path.name) {
                Some(hash) => {
                    let copies = copies_outside(files, folder, hash);
                    if copies.len() == 0 {
                        StatusModel::OnlyCopy
                    } else {
                        StatusModel::Copies(names_of(copies))
                    }
                },
                None => StatusModel::OnlyCopy,
            }
        }
}

/// The names of those of the files that lie outside the folder.
fn names_outside<'a>(files: &Vec<&'a FileRecord>, folder: &FilePath) -> (names: Vec<String>)
    ensures
        names@.map_values(|n: String| n@) == names_of(
            targets(files@).filter(|f: FileRecord| !f@.path.starts_with(folder@)),
        ),
{
    let ghost all = targets(files@);
    let ghost pred = |f: FileRecord| !f@.path.starts_with(folder@);
    let ghost view = |n: String| n@;
    let mut names: Vec<String> = Vec::new();
    let mut i: usize = 0;
    proof {
        reveal(Seq::filter);
        assert(names@.map_values(view) =~= names_of(all.take(0).filter(pred)));
    }
    while i < files.len()
        invariant
            i <= files@.len(),
            all == targets(files@),
            pred == |f: FileRecord| !f@.path.starts_with(folder@),
            view == |n: String| n@,
            names@.map_values(view) == names_of(all.take(i as int).filter(pred)),
        decreases files@.len() - i,
    {
        let ghost names0 = names@;
        let ghost low = all.take(i as int);
        let ghost high = all.take(i + 1);
        proof {
            reveal(Seq::filter);
            assert(high.drop_last() =~= low);
            assert(high.last() == *files@[i as int]);
        }
        let file = files[i];
        if !file.path.starts_with(folder) {
            names.push(file.path_name());
            proof {
                assert(high.filter(pred) == low.filter(pred).push(*files@[i as int]));
                assert(names@.map_values(view) =~= names0.map_values(view).push(
                    files@[i as int]@.path.name,
                ));
                assert(names@.map_values(view) =~= names_of(high.filter(pred)));
            }
        }
        i = i + 1;
    }
    proof {
        assert(all.take(i as int) =~= all);
    }
    names
}

/// What is said of the entries of a folder, and how many have copies elsewhere,
/// have none, or are left out.
#[derive(Debug)]
pub struct DirReport {
    pub statuses: Vec<EntryStatus>,
    pub duplicated_files: usize,
    pub unique_files: usize,
    pub ignored_files: usize,
}

/// What the statuses stand for.
pub open spec fn status_models(statuses: Seq<EntryStatus>) -> Seq<StatusModel> {
    statuses.map_values(|s: EntryStatus| s@)
}

/// How many of the statuses fulfil `pred`.
pub open spec fn how_many(statuses: Seq<StatusModel>, pred: spec_fn(StatusModel) -> bool) -> nat {
    statuses.filter(pred).len()
}

/// Says of each entry of the folder `report_dir` whether it has copies outside of it
/// among `files`.
pub fn report_duplication_status_in_dir(
    config: &Config,
    report_dir: &FilePath,
    files: &Vec<FileRecord>,
    entries: &Vec<WalkEntry>,
) -> (report: DirReport)
    ensures
        status_models(report.statuses@) == scan::entry_models(entries@).map_values(
            status_of(config@, report_dir@, files@),
        ),
        report.duplicated_files == how_many(
            status_models(report.statuses@),
            |s: StatusModel| s is Copies,
        ),
        report.unique_files == how_many(
            status_models(report.statuses@),
            |s: StatusModel| s is OnlyCopy,
        ),
        report.ignored_files == how_many(
            status_models(report.statuses@),
            |s: StatusModel| s is Ignored,
        ),
{
    let (groups, by_hash) = group_by_hash(files);
    let by_path = index_names(files);
    let ghost all = scan::entry_models(entries@);
    let ghost say = status_of(config@, report_dir@, files@);
    let ghost copied = |s: StatusModel| s is Copies;
    let ghost only = |s: StatusModel| s is OnlyCopy;
    let ghost ignored = |s: StatusModel| s is Ignored;
    let mut statuses: Vec<EntryStatus> = Vec::new();
    let mut duplicated_files: usize = 0;
    let mut unique_files: usize = 0;
    let mut ignored_files: usize = 0;
    let mut i: usize = 0;
    proof {
        reveal(Seq::filter);
        assert(status_models(statuses@) =~= all.take(0).map_values(say));
    }
    while i < entries.len()
        invariant
            i <= entries@.len(),
            all == scan::entry_models(entries@),
            say == status_of(config@, report_dir@, files@),
            copied == |s: StatusModel| s is Copies,
            only == |s: StatusModel| s is OnlyCopy,
            ignored == |s: StatusModel| s is Ignored,
            indexes_hashes(by_hash@, groups@, files@),
            scan::indexes_names(by_path@, file_record::models(files@)),
            statuses@.len() == i,
            status_models(statuses@) == all.take(i as int).map_values(say),
            duplicated_files == how_many(status_models(statuses@), copied),
            unique_files == how_many(status_models(statuses@), only),
            ignored_files == how_many(status_models(statuses@), ignored),
            duplicated_files <= i,
            unique_files <= i,
            ignored_files <= i,
        decreases entries@.len() - i,
    {
        let ghost statuses0 = statuses@;
        let entry = &entries[i];
        let size = entry.known_size();
        let status = if entry.is_dir {
            EntryStatus::Directory
        } else if size == 0 || size < config.min_size || !config.is_included(
            &entry.path,
            entry.is_symlink,
        ) {
            ignored_files = ignored_files + 1;
            EntryStatus::Ignored
        } else {
            let mut names: Vec<String> = Vec::new();
            proof {
                let name = entry@.path.name;
                scan::lemma_last_named(file_record::models(files@), name);
                let found = by_path@.contains_key(name);
            }
            if let Some(k) = by_path.get(entry.path.name.as_str()) {
                if let Some(hash) = &files[*k].hash {
                    proof {
                        let found = by_hash@.contains_key(hash@);
                    }
                    if let Some(g) = by_hash.get(hash.as_str()) {
                        names = names_outside(&groups[*g], report_dir);
                    }
                }
            }
            proof {
                let found = hash_of_named(files@, entry@.path.name);
                if let Some(hash) = found {
                    assert(names@.map_values(|n: String| n@) =~= names_of(
                        copies_outside(files@, report_dir@, hash),
                    ));
                    assert(names@.len() == copies_outside(files@, report_dir@, hash).len());
                }
            }
            if names.len() == 0 {
                unique_files = unique_files + 1;
                EntryStatus::OnlyCopy
            } else {
                duplicated_files = duplicated_files + 1;
                EntryStatus::Copies(names)
            }
        };
        proof {
            reveal(Seq::filter);
            assert(status@ == say(entry@));
            assert(all.take(i + 1).map_values(say) =~= all.take(i as int).map_values(say).push(
                say(entry@),
            ));
        }
        statuses.push(status);
        proof {
            assert(status_models(statuses@) =~= status_models(statuses0).push(status@));
            assert(status_models(statuses@).drop_last() =~= status_models(statuses0));
        }
        i = i + 1;
    }
    proof {
        assert(all.take(i as int) =~= all);
    }
    DirReport { statuses, duplicated_files, unique_files, ignored_files }
}

} // verus!
