//! What is known of a file.
use crate::lex;
use crate::lex::bytes_before;
use crate::path;
use crate::path::FilePath;
use crate::sorting;
use crate::sorting::Order;
use vstd::prelude::*;

verus! {

/// A file with its size and, once they are known, the hash of its first bytes and
/// of its whole content.
#[derive(Debug)]
pub struct FileRecord {
    pub path: FilePath,
    pub size: i64,
    pub hash: Option<String>,
    pub hash_4096: Option<String>,
}

/// What a file record stands for.
#[verifier::ext_equal]
pub struct RecordModel {
    pub path: path::PathModel,
    pub size: i64,
    pub hash: Option<Seq<char>>,
    pub hash_4096: Option<Seq<char>>,
}

impl RecordModel {
    /// The records say the same of the same path; under which number the path is
    /// found again, and how it is shown, does not count.
    pub open spec fn same_record(self, other: RecordModel) -> bool {
        &&& self.path.components == other.path.components
        &&& self.size == other.size
        &&& self.hash == other.hash
        &&& self.hash_4096 == other.hash_4096
    }
}

/// What a hash stands for.
pub open spec fn hash_text(hash: Option<String>) -> Option<Seq<char>> {
    match hash {
        Some(text) => Some(text@),
        None => None,
    }
}

impl View for FileRecord {
    type V = RecordModel;

    open spec fn view(&self) -> RecordModel {
        RecordModel {
            path: self.path@,
            size: self.size,
            hash: hash_text(self.hash),
            hash_4096: hash_text(self.hash_4096),
        }
    }
}

/// What the records stand for.
pub open spec fn models(files: Seq<FileRecord>) -> Seq<RecordModel> {
    files.map_values(|f: FileRecord| f@)
}

impl FileRecord {
    /// The path as it is shown.
    pub fn path_name(&self) -> (name: String)
        ensures
            name@ == self@.path.name,
    {
        self.path.name.clone()
    }
}

fn copied_hash(hash: &Option<String>) -> (copy: Option<String>)
    ensures
        hash_text(copy) == hash_text(*hash),
{
    match hash {
        Some(text) => Some(text.clone()),
        None => None,
    }
}

impl Clone for FileRecord {
    fn clone(&self) -> (copy: Self)
        ensures
            copy@ == self@,
    {
        FileRecord {
            path: self.path.clone(),
            size: self.size,
            hash: copied_hash(&self.hash),
            hash_4096: copied_hash(&self.hash_4096),
        }
    }
}

/// The order of hashes: a missing one first, then by their bytes.
pub open spec fn hash_order() -> spec_fn(Option<Seq<char>>, Option<Seq<char>>) -> bool {
    |a: Option<Seq<char>>, b: Option<Seq<char>>|
        match (a, b) {
            (None, Some(_)) => true,
            (Some(x), Some(y)) => lex::bytes_order()(
                vstd::utf8::encode_utf8(x),
                vstd::utf8::encode_utf8(y),
            ),
            _ => false,
        }
}

/// The order of hashes is a strict total order.
pub proof fn hash_order_is_strict_total()
    ensures
        lex::strict_total_order(hash_order()),
{
    lex::bytes_order_is_strict_total();
    let o = lex::bytes_order();
    let lt = hash_order();
    assert forall|a: Option<Seq<char>>| !#[trigger] lt(a, a) by {
        if let Some(x) = a {
            let e = vstd::utf8::encode_utf8(x);
            assert(!o(e, e));
        }
    }
    assert forall|a: Option<Seq<char>>, b: Option<Seq<char>>, c: Option<Seq<char>>| #[trigger]
        lt(a, b) && #[trigger] lt(b, c) implies lt(a, c) by {}
    assert forall|a: Option<Seq<char>>, b: Option<Seq<char>>| #[trigger]
        lt(a, b) || a == b || lt(b, a) by {
        if let (Some(x), Some(y)) = (a, b) {
            vstd::utf8::encode_utf8_decode_utf8(x);
            vstd::utf8::encode_utf8_decode_utf8(y);
            assert(o(vstd::utf8::encode_utf8(x), vstd::utf8::encode_utf8(y))
                || vstd::utf8::encode_utf8(x) == vstd::utf8::encode_utf8(y)
                || o(vstd::utf8::encode_utf8(y), vstd::utf8::encode_utf8(x)));
        }
    }
}

/// Whether the hash `a` comes before the hash `b`.
fn hash_before(a: &Option<String>, b: &Option<String>) -> (before: bool)
    ensures
        before == hash_order()(hash_text(*a), hash_text(*b)),
{
    match (a, b) {
        (None, Some(_)) => true,
        (Some(x), Some(y)) => bytes_before(x.as_str().as_bytes(), y.as_str().as_bytes()),
        _ => false,
    }
}

/// Whether the hashes are equal.
fn same_hash(a: &Option<String>, b: &Option<String>) -> (same: bool)
    ensures
        same == (hash_text(*a) == hash_text(*b)),
{
    proof {
        hash_order_is_strict_total();
        let lt = hash_order();
        let x = hash_text(*a);
        let y = hash_text(*b);
        assert(lt(x, y) || x == y || lt(y, x));
        assert(!lt(x, x));
    }
    !hash_before(a, b) && !hash_before(b, a)
}

impl PartialEq for FileRecord {
    fn eq(&self, other: &FileRecord) -> (equal: bool) {
        self.path == other.path && self.size == other.size && same_hash(&self.hash, &other.hash)
            && same_hash(&self.hash_4096, &other.hash_4096)
    }
}

impl Eq for FileRecord {

}

impl vstd::std_specs::cmp::PartialEqSpecImpl for FileRecord {
    open spec fn obeys_eq_spec() -> bool {
        true
    }

    open spec fn eq_spec(&self, other: &FileRecord) -> bool {
        self@.same_record(other@)
    }
}

/// The order of files by size.
pub open spec fn by_size() -> spec_fn(FileRecord, FileRecord) -> bool {
    |a: FileRecord, b: FileRecord| a.size < b.size
}

/// The order of files by the hash of their first bytes.
pub open spec fn by_hash_4096() -> spec_fn(FileRecord, FileRecord) -> bool {
    |a: FileRecord, b: FileRecord| hash_order()(a@.hash_4096, b@.hash_4096)
}

/// The order of files by the hash of their content.
pub open spec fn by_hash() -> spec_fn(FileRecord, FileRecord) -> bool {
    |a: FileRecord, b: FileRecord| hash_order()(a@.hash, b@.hash)
}

/// Orders files by size.
pub struct BySize;

/// Orders files by the hash of their first bytes.
pub struct ByHash4096;

/// Orders files by the hash of their content.
pub struct ByHash;

/// Files are tied by size where their sizes are equal.
pub proof fn tied_by_size(a: FileRecord, b: FileRecord)
    ensures
        sorting::strict_weak_order(by_size()),
        sorting::tied(by_size(), a, b) <==> a.size == b.size,
{
}

/// Files are tied by the hash of their first bytes where these hashes are equal.
pub proof fn tied_by_hash_4096(a: FileRecord, b: FileRecord)
    ensures
        sorting::strict_weak_order(by_hash_4096()),
        sorting::tied(by_hash_4096(), a, b) <==> a@.hash_4096 == b@.hash_4096,
{
    hash_order_is_strict_total();
    let o = hash_order();
    let lt = by_hash_4096();
    assert forall|x: FileRecord, y: FileRecord| #[trigger] lt(x, y) implies !lt(y, x) by {
        assert(!o(x@.hash_4096, x@.hash_4096));
    }
    assert forall|x: FileRecord, y: FileRecord, z: FileRecord| #[trigger]
        lt(x, z) implies #[trigger] lt(x, y) || lt(y, z) by {
        assert(o(x@.hash_4096, y@.hash_4096) || x@.hash_4096 == y@.hash_4096 || o(
            y@.hash_4096,
            x@.hash_4096,
        ));
    }
    assert(o(a@.hash_4096, b@.hash_4096) || a@.hash_4096 == b@.hash_4096 || o(
        b@.hash_4096,
        a@.hash_4096,
    ));
    assert(!o(a@.hash_4096, a@.hash_4096));
}

/// Files are tied by hash where their hashes are equal.
pub proof fn tied_by_hash(a: FileRecord, b: FileRecord)
    ensures
        sorting::strict_weak_order(by_hash()),
        sorting::tied(by_hash(), a, b) <==> a@.hash == b@.hash,
{
    hash_order_is_strict_total();
    let o = hash_order();
    let lt = by_hash();
    assert forall|x: FileRecord, y: FileRecord| #[trigger] lt(x, y) implies !lt(y, x) by {
        assert(!o(x@.hash, x@.hash));
    }
    assert forall|x: FileRecord, y: FileRecord, z: FileRecord| #[trigger]
        lt(x, z) implies #[trigger] lt(x, y) || lt(y, z) by {
        assert(o(x@.hash, y@.hash) || x@.hash == y@.hash || o(y@.hash, x@.hash));
    }
    assert(o(a@.hash, b@.hash) || a@.hash == b@.hash || o(b@.hash, a@.hash));
    assert(!o(a@.hash, a@.hash));
}

impl Order<FileRecord> for BySize {
    open spec fn lt(&self) -> spec_fn(FileRecord, FileRecord) -> bool {
        by_size()
    }

    proof fn order_laws(&self) {
    }

    fn before(&self, a: &FileRecord, b: &FileRecord) -> (before: bool) {
        a.size < b.size
    }
}

impl Order<FileRecord> for ByHash4096 {
    open spec fn lt(&self) -> spec_fn(FileRecord, FileRecord) -> bool {
        by_hash_4096()
    }

    proof fn order_laws(&self) {
        let f: FileRecord = arbitrary();
        tied_by_hash_4096(f, f);
    }

    fn before(&self, a: &FileRecord, b: &FileRecord) -> (before: bool) {
        hash_before(&a.hash_4096, &b.hash_4096)
    }
}

impl Order<FileRecord> for ByHash {
    open spec fn lt(&self) -> spec_fn(FileRecord, FileRecord) -> bool {
        by_hash()
    }

    proof fn order_laws(&self) {
        let f: FileRecord = arbitrary();
        tied_by_hash(f, f);
    }

    fn before(&self, a: &FileRecord, b: &FileRecord) -> (before: bool) {
        hash_before(&a.hash, &b.hash)
    }
}

impl<'a> Order<&'a FileRecord> for ByHash {
    open spec fn lt(&self) -> spec_fn(&'a FileRecord, &'a FileRecord) -> bool {
        |a: &'a FileRecord, b: &'a FileRecord| by_hash()(*a, *b)
    }

    proof fn order_laws(&self) {
        let f: FileRecord = arbitrary();
        tied_by_hash(f, f);
    }

    fn before(&self, a: &&'a FileRecord, b: &&'a FileRecord) -> (before: bool) {
        hash_before(&a.hash, &b.hash)
    }
}

} // verus!
