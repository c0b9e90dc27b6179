//! What the index stores: its fields, the documents made of files, and what is read back.

use vstd::hash_map::StringHashMap;
use vstd::prelude::*;

use crate::paths::{
    extension, extension_of, file_name, is_plain_relative, join, join_strips_back, joined, name_of,
    path_starts_with, strip_prefix, stripped,
};
use crate::text::{same_text, texts, trim, trimmed};
use crate::types::IndexStats;

verus! {

/// The path of a file relative to the project, split into words.
pub const FIELD_PATH: &'static str = "path";

/// The path of a file relative to the project, as it is.
pub const FIELD_PATH_EXACT: &'static str = "path_exact";

/// The name of a file.
pub const FIELD_FILENAME: &'static str = "filename";

/// The extension of a file.
pub const FIELD_EXTENSION: &'static str = "extension";

/// The text of a file.
pub const FIELD_BODY: &'static str = "body";

/// When a file was modified, in seconds.
pub const FIELD_MODIFIED: &'static str = "modified";

/// The size of a file in bytes.
pub const FIELD_SIZE: &'static str = "size";

/// Changes with the fields and the way text is split; an index of another version is
/// dropped.
pub const SCHEMA_VERSION: &'static str = "v3";

/// The directory of the index below the index directory.
pub const INDEX_SUBDIR: &'static str = "index";

/// The file that holds the version of the index.
pub const VERSION_MARKER: &'static str = "schema.ver";

/// The lock that a writer leaves in the index.
pub const WRITER_LOCK: &'static str = ".tantivy-writer.lock";

/// How a field is indexed and kept.
#[derive(Debug, Clone, Copy, PartialEq, Eq, Structural)]
pub enum FieldKind {
    /// Text split into words of code, with positions, kept.
    CodeText,
    /// Text as one term, kept.
    ExactText,
    /// Text split into words, with positions, not kept.
    BodyText,
    /// A number that is kept and fast to read.
    Number,
}

/// A field of the index.
#[derive(Debug, Clone)]
pub struct FieldSpec {
    pub name: &'static str,
    pub kind: FieldKind,
}

/// The fields of the index.
pub open spec fn schema_fields() -> Seq<FieldSpec> {
    seq![
        FieldSpec { name: FIELD_PATH, kind: FieldKind::CodeText },
        FieldSpec { name: FIELD_PATH_EXACT, kind: FieldKind::ExactText },
        FieldSpec { name: FIELD_FILENAME, kind: FieldKind::CodeText },
        FieldSpec { name: FIELD_EXTENSION, kind: FieldKind::ExactText },
        FieldSpec { name: FIELD_BODY, kind: FieldKind::BodyText },
        FieldSpec { name: FIELD_MODIFIED, kind: FieldKind::Number },
        FieldSpec { name: FIELD_SIZE, kind: FieldKind::Number },
    ]
}

/// The fields of the index, in order.
pub fn build_schema() -> (r: Vec<FieldSpec>)
    ensures
        r@ == schema_fields(),
{
    let mut r: Vec<FieldSpec> = Vec::new();
    r.push(FieldSpec { name: FIELD_PATH, kind: FieldKind::CodeText });
    r.push(FieldSpec { name: FIELD_PATH_EXACT, kind: FieldKind::ExactText });
    r.push(FieldSpec { name: FIELD_FILENAME, kind: FieldKind::CodeText });
    r.push(FieldSpec { name: FIELD_EXTENSION, kind: FieldKind::ExactText });
    r.push(FieldSpec { name: FIELD_BODY, kind: FieldKind::BodyText });
    r.push(FieldSpec { name: FIELD_MODIFIED, kind: FieldKind::Number });
    r.push(FieldSpec { name: FIELD_SIZE, kind: FieldKind::Number });
    assert(r@ =~= schema_fields());
    r
}

/// No two fields of the index have the same name, so that a name finds one field.
pub proof fn field_names_are_distinct()
    ensures
        forall|i: int, j: int|
            0 <= i < j < schema_fields().len() ==> (#[trigger] schema_fields()[i]).name@ != (
            #[trigger] schema_fields()[j]).name@,
{
    reveal_strlit("path");
    reveal_strlit("path_exact");
    reveal_strlit("filename");
    reveal_strlit("extension");
    reveal_strlit("body");
    reveal_strlit("modified");
    reveal_strlit("size");
    let f = schema_fields();
    assert(f[0].name@ == "path"@ && f[0].name@[0] == 'p');
    assert(f[1].name@ == "path_exact"@);
    assert(f[2].name@ == "filename"@ && f[2].name@[0] == 'f');
    assert(f[3].name@ == "extension"@);
    assert(f[4].name@ == "body"@ && f[4].name@[0] == 'b');
    assert(f[5].name@ == "modified"@ && f[5].name@[0] == 'm');
    assert(f[6].name@ == "size"@ && f[6].name@[0] == 's');
    assert forall|i: int, j: int| 0 <= i < j < f.len() implies (#[trigger] f[i]).name@ != (
    #[trigger] f[j]).name@ by {
        assert(i == 0 || i == 1 || i == 2 || i == 3 || i == 4 || i == 5);
        assert(j == 1 || j == 2 || j == 3 || j == 4 || j == 5 || j == 6);
    }
}

/// Where the files of an index are.
pub fn index_path(index_dir: &str) -> (r: String)
    ensures
        r@ == joined(index_dir@, INDEX_SUBDIR@),
{
    join(index_dir, INDEX_SUBDIR)
}

/// Where the version of an index is kept.
pub fn version_marker(index_dir: &str) -> (r: String)
    ensures
        r@ == joined(index_dir@, VERSION_MARKER@),
{
    join(index_dir, VERSION_MARKER)
}

/// Where a writer leaves its lock.
pub fn writer_lock(index_dir: &str) -> (r: String)
    ensures
        r@ == joined(joined(index_dir@, INDEX_SUBDIR@), WRITER_LOCK@),
{
    join(index_path(index_dir).as_str(), WRITER_LOCK)
}

/// Whether an index must be dropped before it is opened: it exists and its version, without
/// the white space around it, is not the current one. A version that cannot be read is empty.
pub fn is_stale(index_exists: bool, stored_version: &str) -> (r: bool)
    ensures
        r == (index_exists && trimmed(stored_version@) != SCHEMA_VERSION@),
{
    index_exists && !same_text(trim(stored_version).as_str(), SCHEMA_VERSION)
}

/// The path of a file as the index knows it: relative to the project where it lies below it.
pub open spec fn indexed_path(root: Seq<char>, path: Seq<char>) -> Seq<char> {
    match stripped(path, root) {
        Some(rel) => rel,
        None => path,
    }
}

/// The path of a file as the index knows it.
pub fn rel_path(project_root: &str, path: &str) -> (r: String)
    ensures
        r@ == indexed_path(project_root@, path@),
{
    match strip_prefix(path, project_root) {
        Some(rel) => rel,
        None => path.to_owned(),
    }
}

/// A file ready to be added to the index.
#[derive(Debug, Clone)]
pub struct PreparedDoc {
    pub relative: String,
    pub filename: String,
    pub extension: String,
    pub body: String,
    pub modified: u64,
    pub size: u64,
}

/// A text that may be missing, empty where it is.
pub open spec fn or_empty(t: Option<Seq<char>>) -> Seq<char> {
    match t {
        Some(s) => s,
        None => Seq::empty(),
    }
}

/// What a file was found to hold when it was read.
#[derive(Debug, Clone)]
pub struct FileContents {
    pub body: String,
    pub modified: u64,
    pub size: u64,
}

/// Make a document of a file. A file that could not be read keeps the reason.
pub fn prepare_doc(
    project_root: &str,
    file_path: &str,
    read: Result<FileContents, String>,
) -> (r: Result<PreparedDoc, String>)
    ensures
        match read {
            Ok(c) => {
                &&& r matches Ok(d)
                &&& d.relative@ == indexed_path(project_root@, file_path@)
                &&& d.filename@ == or_empty(name_of(file_path@))
                &&& d.extension@ == or_empty(extension_of(file_path@))
                &&& d.body == c.body
                &&& d.modified == c.modified
                &&& d.size == c.size
            },
            Err(e) => r == Err::<PreparedDoc, String>(e),
        },
{
    let c = match read {
        Ok(c) => c,
        Err(e) => {
            return Err(e);
        },
    };
    let filename = match file_name(file_path) {
        Some(n) => n,
        None => {
            let n = String::new();
            assert(n@ =~= Seq::<char>::empty());
            n
        },
    };
    let ext = match extension(file_path) {
        Some(e) => e,
        None => {
            let e = String::new();
            assert(e@ =~= Seq::<char>::empty());
            e
        },
    };
    Ok(
        PreparedDoc {
            relative: rel_path(project_root, file_path),
            filename,
            extension: ext,
            body: c.body,
            modified: c.modified,
            size: c.size,
        },
    )
}

/// What is read back of a document: its path and its modification time, where it has them.
#[derive(Debug, Clone)]
pub struct StoredDoc {
    pub path: Option<String>,
    pub modified: Option<u64>,
}

/// The modification times of the documents that have a path and a time. Of documents with
/// the same path the last one counts.
pub open spec fn mtimes_of(docs: Seq<StoredDoc>) -> Map<Seq<char>, u64>
    decreases docs.len(),
{
    if docs.len() == 0 {
        Map::empty()
    } else {
        let before = mtimes_of(docs.drop_last());
        match (docs.last().path, docs.last().modified) {
            (Some(p), Some(m)) => before.insert(p@, m),
            _ => before,
        }
    }
}

/// The paths that the index holds, with their modification times.
pub struct IndexedTimes {
    paths: Vec<String>,
    times: StringHashMap<u64>,
}

impl View for IndexedTimes {
    type V = Map<Seq<char>, u64>;

    closed spec fn view(&self) -> Map<Seq<char>, u64> {
        self.times@
    }
}

impl IndexedTimes {
    /// The paths in the order in which they were found.
    pub closed spec fn keys(&self) -> Seq<Seq<char>> {
        texts(self.paths@)
    }

    /// The list of paths holds each path of the map once, and no other.
    pub open spec fn wf(&self) -> bool {
        &&& self.keys().no_duplicates()
        &&& forall|p: Seq<char>| self@.contains_key(p) <==> #[trigger] self.keys().contains(p)
    }

    /// No paths.
    pub fn new() -> (r: IndexedTimes)
        ensures
            r@ == Map::<Seq<char>, u64>::empty(),
            r.wf(),
    {
        IndexedTimes { paths: Vec::new(), times: StringHashMap::new() }
    }

    /// How many paths there are.
    pub fn len(&self) -> (r: usize)
        ensures
            r == self.keys().len(),
    {
        self.paths.len()
    }

    /// The path number `i`.
    pub fn path(&self, i: usize) -> (r: &String)
        requires
            i < self.keys().len(),
        ensures
            r@ == self.keys()[i as int],
    {
        &self.paths[i]
    }

    /// The modification time of a path that the index holds.
    pub fn get(&self, path: &str) -> (r: Option<u64>)
        ensures
            match r {
                Some(m) => self@.contains_key(path@) && m == self@[path@],
                None => !self@.contains_key(path@),
            },
    {
        match self.times.get(path) {
            Some(m) => Some(*m),
            None => None,
        }
    }

    /// Note the modification time of a path.
    pub fn insert(&mut self, path: &str, modified: u64)
        requires
            old(self).wf(),
        ensures
            final(self)@ == old(self)@.insert(path@, modified),
            final(self).wf(),
    {
        let ghost before = self.keys();
        if !self.times.contains_key(path) {
            self.paths.push(path.to_owned());
            proof {
                assert(!before.contains(path@));
                assert(self.keys() =~= before.push(path@));
                assert forall|p: Seq<char>| #[trigger]
                    self.keys().contains(p) <==> before.contains(p) || p == path@ by {
                    if before.contains(p) {
                        let i = choose|i: int| 0 <= i < before.len() && before[i] == p;
                        assert(self.keys()[i] == p);
                    }
                    if p == path@ {
                        assert(self.keys()[before.len() as int] == p);
                    }
                }
            }
        } else {
            assert(before.contains(path@));
        }
        self.times.insert(path.to_owned(), modified);
    }
}

/// The modification times of the documents in the index.
pub fn all_indexed_mtimes(docs: &Vec<StoredDoc>) -> (r: IndexedTimes)
    ensures
        r@ == mtimes_of(docs@),
        r.wf(),
{
    let mut map = IndexedTimes::new();
    let mut i: usize = 0;
    while i < docs.len()
        invariant
            i <= docs@.len(),
            map.wf(),
            map@ == mtimes_of(docs@.take(i as int)),
        decreases docs@.len() - i,
    {
        assert(docs@.take(i + 1).drop_last() =~= docs@.take(i as int));
        match (&docs[i].path, docs[i].modified) {
            (Some(p), Some(m)) => {
                map.insert(p.as_str(), m);
            },
            _ => {},
        }
        i += 1;
    }
    assert(docs@.take(i as int) =~= docs@);
    map
}

/// The sum of the sizes that are known.
pub open spec fn size_sum(sizes: Seq<Option<u64>>) -> nat
    decreases sizes.len(),
{
    if sizes.len() == 0 {
        0
    } else {
        size_sum(sizes.drop_last()) + (match sizes.last() {
            Some(n) => n as nat,
            None => 0,
        })
    }
}

proof fn lemma_size_sum(sizes: Seq<Option<u64>>, n: int)
    requires
        0 <= n <= sizes.len(),
    ensures
        size_sum(sizes.take(n)) <= size_sum(sizes),
    decreases sizes.len() - n,
{
    if n < sizes.len() {
        lemma_size_sum(sizes, n + 1);
        assert(sizes.take(n + 1).drop_last() =~= sizes.take(n));
    } else {
        assert(sizes.take(n) =~= sizes);
    }
}

/// The numbers of an index. `file_sizes` are the sizes of its files; a file that cannot be
/// read counts for nothing.
pub fn compute_stats(
    num_docs: u64,
    num_segments: usize,
    file_sizes: &Vec<Option<u64>>,
    project_root: &str,
) -> (r: IndexStats)
    requires
        size_sum(file_sizes@) <= u64::MAX,
    ensures
        r.num_docs == num_docs,
        r.num_segments == num_segments,
        r.index_size_bytes == size_sum(file_sizes@),
        r.project_root@ == project_root@,
{
    let mut sum: u64 = 0;
    let mut i: usize = 0;
    while i < file_sizes.len()
        invariant
            i <= file_sizes@.len(),
            size_sum(file_sizes@) <= u64::MAX,
            sum == size_sum(file_sizes@.take(i as int)),
        decreases file_sizes@.len() - i,
    {
        proof {
            assert(file_sizes@.take(i + 1).drop_last() =~= file_sizes@.take(i as int));
            lemma_size_sum(file_sizes@, i + 1);
        }
        match file_sizes[i] {
            Some(n) => {
                sum += n;
            },
            None => {},
        }
        i += 1;
    }
    assert(file_sizes@.take(i as int) =~= file_sizes@);
    IndexStats {
        num_docs,
        num_segments,
        index_size_bytes: sum,
        project_root: project_root.to_owned(),
    }
}

/// The index has seven fields, each with its own way of keeping what it holds: path and file
/// name are split into words of code, the exact path and the extension are kept as they are,
/// the text is split into words and not kept, time and size are numbers.
pub proof fn fields_are_these(f: FieldSpec)
    ensures
        schema_fields().contains(f) <==> {
            ||| f == (FieldSpec { name: "path", kind: FieldKind::CodeText })
            ||| f == (FieldSpec { name: "path_exact", kind: FieldKind::ExactText })
            ||| f == (FieldSpec { name: "filename", kind: FieldKind::CodeText })
            ||| f == (FieldSpec { name: "extension", kind: FieldKind::ExactText })
            ||| f == (FieldSpec { name: "body", kind: FieldKind::BodyText })
            ||| f == (FieldSpec { name: "modified", kind: FieldKind::Number })
            ||| f == (FieldSpec { name: "size", kind: FieldKind::Number })
        },
        schema_fields().len() == 7,
        SCHEMA_VERSION@ == "v3"@,
        INDEX_SUBDIR@ == "index"@,
        VERSION_MARKER@ == "schema.ver"@,
        WRITER_LOCK@ == ".tantivy-writer.lock"@,
{
    let s = schema_fields();
    assert(s[0] == FieldSpec { name: "path", kind: FieldKind::CodeText });
    assert(s[1] == FieldSpec { name: "path_exact", kind: FieldKind::ExactText });
    assert(s[2] == FieldSpec { name: "filename", kind: FieldKind::CodeText });
    assert(s[3] == FieldSpec { name: "extension", kind: FieldKind::ExactText });
    assert(s[4] == FieldSpec { name: "body", kind: FieldKind::BodyText });
    assert(s[5] == FieldSpec { name: "modified", kind: FieldKind::Number });
    assert(s[6] == FieldSpec { name: "size", kind: FieldKind::Number });
}

/// The index knows a file of the project by its path relative to the root, and any other by
/// its whole path.
pub proof fn files_are_known_by_relative_path(root: Seq<char>, path: Seq<char>)
    ensures
        is_plain_relative(path) ==> indexed_path(root, joined(root, path)) == path,
        !path_starts_with(path, root) ==> indexed_path(root, path) == path,
        stripped(path, root) matches Some(rel) ==> indexed_path(root, path) == rel,
{
    if is_plain_relative(path) {
        join_strips_back(root, path);
    }
}

/// What is missing is kept as the empty text, what is there as it is.
pub proof fn missing_texts_are_empty(t: Seq<char>)
    ensures
        or_empty(Some(t)) == t,
        or_empty(None).len() == 0,
{
}

/// The index holds a path with the time of the last document that has both. A document
/// without a path or without a time counts for nothing.
pub proof fn last_document_counts(docs: Seq<StoredDoc>, k: int)
    requires
        0 <= k < docs.len(),
        docs[k].path is Some,
        docs[k].modified is Some,
        forall|j: int|
            k < j < docs.len() && (#[trigger] docs[j]).path is Some && docs[j].modified is Some
                ==> docs[j].path->0@ != docs[k].path->0@,
    ensures
        mtimes_of(docs).contains_key(docs[k].path->0@),
        mtimes_of(docs)[docs[k].path->0@] == docs[k].modified->0,
    decreases docs.len(),
{
    if k < docs.len() - 1 {
        let d = docs.drop_last();
        assert(d[k] == docs[k]);
        assert forall|j: int|
            k < j < d.len() && (#[trigger] d[j]).path is Some && d[j].modified is Some implies d[j].path->0@
            != d[k].path->0@ by {
            assert(docs[j] == d[j]);
        }
        last_document_counts(d, k);
        assert(docs[docs.len() - 1] == docs.last());
    }
}

/// Every path that the index holds comes from a document that has it and a time.
pub proof fn held_paths_come_from_documents(docs: Seq<StoredDoc>, p: Seq<char>)
    requires
        mtimes_of(docs).contains_key(p),
    ensures
        exists|k: int|
            0 <= k < docs.len() && (#[trigger] docs[k]).path is Some && docs[k].modified is Some
                && docs[k].path->0@ == p,
    decreases docs.len(),
{
    if docs.len() > 0 {
        let d = docs.drop_last();
        let n = docs.len() - 1;
        if mtimes_of(d).contains_key(p) {
            held_paths_come_from_documents(d, p);
            let k = choose|k: int|
                0 <= k < d.len() && (#[trigger] d[k]).path is Some && d[k].modified is Some
                    && d[k].path->0@ == p;
            assert(docs[k] == d[k]);
        } else {
            assert(docs[n].path is Some);
        }
    }
}

/// The size of the index is the sum of the sizes of its files; one that is not known adds
/// nothing.
pub proof fn sizes_add_up(sizes: Seq<Option<u64>>)
    ensures
        size_sum(sizes) == sizes.fold_left(
            0nat,
            |n: nat, s: Option<u64>|
                match s {
                    Some(x) => n + x as nat,
                    None => n,
                },
        ),
    decreases sizes.len(),
{
    if sizes.len() > 0 {
        sizes_add_up(sizes.drop_last());
    }
}

} // verus!
