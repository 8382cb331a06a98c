//! Taking in the files of a folder.
use crate::config;
use crate::config::Config;
use crate::file_record;
use crate::file_record::FileRecord;
use crate::path;
use crate::path::FilePath;
use vstd::hash_map::StringHashMap;
use vstd::prelude::*;

verus! {

/// How many files are inserted before they are committed.
pub const INSERT_COMMIT_LIMIT: usize = 10_000;

/// What a walk through a folder comes across.
#[derive(Debug)]
pub struct WalkEntry {
    pub path: FilePath,
    /// It is a regular file itself, not a link to one.
    pub is_file: bool,
    /// It is a directory or a link to one.
    pub is_dir: bool,
    /// It is a symbolic link.
    pub is_symlink: bool,
    /// Its size, where it could be read.
    pub size: Option<u64>,
}

/// What an entry stands for; an unknown size counts as zero.
pub struct EntryModel {
    pub path: path::PathModel,
    pub is_file: bool,
    pub is_dir: bool,
    pub is_symlink: bool,
    pub size: u64,
}

impl View for WalkEntry {
    type V = EntryModel;

    open spec fn view(&self) -> EntryModel {
        EntryModel {
            path: self.path@,
            is_file: self.is_file,
            is_dir: self.is_dir,
            is_symlink: self.is_symlink,
            size: match self.size {
                Some(size) => size,
                None => 0,
            },
        }
    }
}

/// What the entries stand for.
pub open spec fn entry_models(entries: Seq<WalkEntry>) -> Seq<EntryModel> {
    entries.map_values(|e: WalkEntry| e@)
}

impl WalkEntry {
    /// The size; zero where it could not be read.
    pub fn known_size(&self) -> (size: u64)
        ensures
            size == self@.size,
    {
        match self.size {
            Some(size) => size,
            None => 0,
        }
    }
}

/// The position of the last file that is shown as `name`.
pub open spec fn last_named(files: Seq<file_record::RecordModel>, name: Seq<char>) -> Option<int>
    decreases files.len(),
{
    if files.len() == 0 {
        None
    } else if files.last().path.name == name {
        Some(files.len() - 1)
    } else {
        last_named(files.drop_last(), name)
    }
}

/// The last file that is shown as `name` is one of the files and is so shown; there
/// is none exactly where no file is so shown.
pub proof fn lemma_last_named(files: Seq<file_record::RecordModel>, name: Seq<char>)
    ensures
        match last_named(files, name) {
            Some(k) => {
                &&& 0 <= k < files.len()
                &&& files[k].path.name == name
                &&& forall|i: int| k < i < files.len() ==> (#[trigger] files[i]).path.name != name
            },
            None => forall|i: int|
                0 <= i < files.len() ==> (#[trigger] files[i]).path.name != name,
        },
    decreases files.len(),
{
    if files.len() > 0 && files.last().path.name != name {
        let rest = files.drop_last();
        lemma_last_named(rest, name);
        assert forall|i: int| 0 <= i < files.len() - 1 implies #[trigger] files[i] == rest[i] by {}
    }
}

/// `index` holds for each name the position of the last file that is shown so.
pub open spec fn indexes_names(
    index: Map<Seq<char>, usize>,
    files: Seq<file_record::RecordModel>,
) -> bool {
    forall|name: Seq<char>|
        match last_named(files, name) {
            Some(k) => #[trigger] index.contains_key(name) && index[name] == k,
            None => !index.contains_key(name),
        }
}

/// An index from the shown paths to the positions of the files.
pub fn index_names(files: &Vec<FileRecord>) -> (index: StringHashMap<usize>)
    ensures
        indexes_names(index@, file_record::models(files@)),
{
    let ghost all = file_record::models(files@);
    let mut index: StringHashMap<usize> = StringHashMap::new();
    let mut i: usize = 0;
    while i < files.len()
        invariant
            i <= files@.len(),
            all == file_record::models(files@),
            indexes_names(index@, all.take(i as int)),
        decreases files@.len() - i,
    {
        let ghost index0 = index@;
        index.insert(files[i].path_name(), i);
        proof {
            let next = all.take(i + 1);
            assert(next.drop_last() =~= all.take(i as int));
            assert(next.last() == files@[i as int]@);
            assert forall|name: Seq<char>|
                match last_named(next, name) {
                    Some(k) => #[trigger] index@.contains_key(name) && index@[name] == k,
                    None => !index@.contains_key(name),
                } by {
                assert(index0.contains_key(name) ==> last_named(all.take(i as int), name) is Some);
            }
        }
        i = i + 1;
    }
    proof {
        assert(all.take(files@.len() as int) =~= all);
    }
    index
}

/// A file that is taken in: a regular file that is looked at and is not too small.
pub open spec fn is_taken(config: config::ConfigModel) -> spec_fn(EntryModel) -> bool {
    |e: EntryModel|
        e.is_file && config.is_included(e.path, e.is_symlink) && e.size >= config.min_size
}

/// The record of a file of which only path and size are known.
pub open spec fn new_record(entry: EntryModel) -> file_record::RecordModel {
    file_record::RecordModel {
        path: entry.path,
        size: entry.size as i64,
        hash: None,
        hash_4096: None,
    }
}

/// The record of an entry: the last known one with the same name, or a new one.
pub open spec fn record_of(known: Seq<file_record::RecordModel>) -> spec_fn(
    EntryModel,
) -> file_record::RecordModel {
    |e: EntryModel|
        match last_named(known, e.path.name) {
            Some(k) => known[k],
            None => new_record(e),
        }
}

/// The records of the files of a folder.
pub open spec fn folder_files(
    config: config::ConfigModel,
    known: Seq<file_record::RecordModel>,
    entries: Seq<EntryModel>,
) -> Seq<file_record::RecordModel> {
    entries.filter(is_taken(config)).map_values(record_of(known))
}

/// The positions of the entries that have no known record.
pub open spec fn new_positions(
    known: Seq<file_record::RecordModel>,
    taken: Seq<EntryModel>,
) -> Seq<usize>
    decreases taken.len(),
{
    if taken.len() == 0 {
        Seq::empty()
    } else {
        let rest = new_positions(known, taken.drop_last());
        if last_named(known, taken.last().path.name) is None {
            rest.push((taken.len() - 1) as usize)
        } else {
            rest
        }
    }
}

/// A command to the cache of known files.
#[derive(Debug, Clone, Copy, PartialEq, Eq, Structural)]
pub enum CacheCommand {
    /// Insert the file at this position.
    Insert(usize),
    /// Commit what was inserted.
    Commit,
}

/// The commands that insert the files at the positions, with a commit after each
/// full batch.
pub open spec fn insert_commands(positions: Seq<usize>) -> Seq<CacheCommand>
    decreases positions.len(),
{
    if positions.len() == 0 {
        Seq::empty()
    } else {
        let inserted = insert_commands(positions.drop_last()).push(
            CacheCommand::Insert(positions.last()),
        );
        if positions.len() % (INSERT_COMMIT_LIMIT as nat) == 0 {
            inserted.push(CacheCommand::Commit)
        } else {
            inserted
        }
    }
}

/// The files of a folder, and the commands that bring the new ones into the cache.
#[derive(Debug)]
pub struct FolderScan {
    pub files: Vec<FileRecord>,
    pub commands: Vec<CacheCommand>,
}

/// Takes in the files of a folder that a walk came across; `known` are the records
/// that the cache has of files in the folder.
pub fn add_folder(config: &Config, known: &Vec<FileRecord>, entries: &Vec<WalkEntry>) -> (scan:
    FolderScan)
    ensures
        file_record::models(scan.files@) == folder_files(
            config@,
            file_record::models(known@),
            entry_models(entries@),
        ),
        scan.commands@ == insert_commands(
            new_positions(
                file_record::models(known@),
                entry_models(entries@).filter(is_taken(config@)),
            ),
        ).push(CacheCommand::Commit),
{
    let ghost all = entry_models(entries@);
    let ghost cached = file_record::models(known@);
    let ghost pred = is_taken(config@);
    let index = index_names(known);
    let mut files: Vec<FileRecord> = Vec::new();
    let mut commands: Vec<CacheCommand> = Vec::new();
    let mut num_inserts: usize = 0;
    let mut i: usize = 0;
    proof {
        reveal(Seq::filter);
        assert(all.take(0).filter(pred) =~= Seq::<EntryModel>::empty());
        assert(file_record::models(files@) =~= folder_files(config@, cached, all.take(0)));
    }
    while i < entries.len()
        invariant
            i <= entries@.len(),
            all == entry_models(entries@),
            cached == file_record::models(known@),
            pred == is_taken(config@),
            indexes_names(index@, cached),
            file_record::models(files@) == folder_files(config@, cached, all.take(i as int)),
            files@.len() == all.take(i as int).filter(pred).len(),
            files@.len() <= i,
            commands@ == insert_commands(new_positions(cached, all.take(i as int).filter(pred))),
            num_inserts == new_positions(cached, all.take(i as int).filter(pred)).len()
                % (INSERT_COMMIT_LIMIT as nat),
        decreases entries@.len() - i,
    {
        let entry = &entries[i];
        let ghost taken0 = all.take(i as int).filter(pred);
        let ghost taken1 = all.take(i + 1).filter(pred);
        let ghost files0 = files@;
        proof {
            reveal(Seq::filter);
            assert(all.take(i + 1).drop_last() =~= all.take(i as int));
            assert(all.take(i + 1).last() == entry@);
        }
        i = i + 1;
        if !entry.is_file || !config.is_included(&entry.path, entry.is_symlink) {
            continue ;
        }
        let size = entry.known_size();
        if size < config.min_size {
            continue ;
        }
        proof {
            assert(taken1 == taken0.push(entry@));
            assert(taken1.drop_last() =~= taken0);
            assert(taken1.map_values(record_of(cached)) =~= taken0.map_values(
                record_of(cached),
            ).push(record_of(cached)(entry@)));
            lemma_last_named(cached, entry@.path.name);
        }
        let file = match index.get(entry.path.name.as_str()) {
            Some(k) => known[*k].clone(),
            None => {
                let ghost positions0 = new_positions(cached, taken0);
                let ghost positions1 = new_positions(cached, taken1);
                commands.push(CacheCommand::Insert(files.len()));
                num_inserts = num_inserts + 1;
                proof {
                    assert(positions1 == positions0.push(files@.len() as usize));
                    assert(positions1.drop_last() =~= positions0);
                }
                if num_inserts >= INSERT_COMMIT_LIMIT {
                    commands.push(CacheCommand::Commit);
                    num_inserts = 0;
                }
                FileRecord {
                    path: entry.path.clone(),
                    size: size as i64,
                    hash: None,
                    hash_4096: None,
                }
            },
        };
        files.push(file);
        proof {
            assert(file_record::models(files@) =~= file_record::models(files0).push(file@));
        }
    }
    proof {
        assert(all.take(entries@.len() as int) =~= all);
    }
    commands.push(CacheCommand::Commit);
    FolderScan { files, commands }
}

} // verus!
