//! The store: a tree of named blobs below a base path with the directories
//! that were created for them, and the layout that turns a content hash into
//! a name.

use crate::hash::{hex_of, push_char, Hash32};
use crate::hashio::{ErrorView, HashIOError, IoFault};
use crate::text::same_text;
use vstd::prelude::*;
use vstd::string::StringExecFns;

verus! {

/// The directory of a hash below `base`: the base, a slash, the first two
/// hexadecimal digits of the hash, a slash.
pub open spec fn spec_directory(base: Seq<char>, hash: Seq<u8>) -> Seq<char> {
    base + seq!['/'] + hex_of(hash).subrange(0, 2) + seq!['/']
}

/// The name of the blob of a hash below `base`: its directory, then the
/// other 62 hexadecimal digits.
pub open spec fn spec_filename(base: Seq<char>, hash: Seq<u8>) -> Seq<char> {
    spec_directory(base, hash) + hex_of(hash).subrange(2, 64)
}

/// The name under which a blob is written before it is renamed.
pub open spec fn spec_temp_name(name: Seq<char>) -> Seq<char> {
    name + seq!['_']
}

/// Different hashes have different names below one base.
pub proof fn lemma_filename_injective(base: Seq<char>, a: Seq<u8>, b: Seq<u8>)
    requires
        a.len() == 32,
        b.len() == 32,
        spec_filename(base, a) == spec_filename(base, b),
    ensures
        a == b,
{
    let x = hex_of(a);
    let y = hex_of(b);
    let n = base.len() as int;
    let p = spec_filename(base, a);
    let q = spec_filename(base, b);
    assert(x.len() == 64 && y.len() == 64);
    assert forall|i: int| 0 <= i < 64 implies x[i] == y[i] by {
        if i < 2 {
            assert(p[n + 1 + i] == x[i]);
            assert(q[n + 1 + i] == y[i]);
        } else {
            assert(p[n + 2 + i] == x[i]);
            assert(q[n + 2 + i] == y[i]);
        }
    }
    assert(x =~= y);
    crate::hash::lemma_hex_injective(a, b);
}

/// One blob of the tree.
#[derive(Clone, Debug, PartialEq)]
pub struct StoredFile {
    pub name: String,
    pub content: Vec<u8>,
}

/// The blobs by name.
pub open spec fn file_map(files: Seq<StoredFile>) -> Map<Seq<char>, Seq<u8>>
    decreases files.len(),
{
    if files.len() == 0 {
        Map::empty()
    } else {
        file_map(files.drop_last()).insert(files.last().name@, files.last().content@)
    }
}

/// Whether no two entries have one name.
pub open spec fn unique_names(files: Seq<StoredFile>) -> bool {
    forall|i: int, j: int|
        0 <= i < j < files.len() ==> (#[trigger] files[i]).name@ != (#[trigger] files[j]).name@
}

/// Whether an entry has the name.
pub open spec fn has_name(files: Seq<StoredFile>, name: Seq<char>) -> bool {
    exists|i: int| 0 <= i < files.len() && (#[trigger] files[i]).name@ == name
}

/// Where no two entries have one name, the blobs by name are the entries:
/// a name has a blob where an entry has the name, and the blob is the
/// content of that entry.
pub proof fn lemma_file_map(files: Seq<StoredFile>)
    requires
        unique_names(files),
    ensures
        forall|n: Seq<char>| #[trigger] file_map(files).contains_key(n) <==> has_name(files, n),
        forall|i: int|
            0 <= i < files.len() ==> file_map(files)[(#[trigger] files[i]).name@]
                == files[i].content@,
    decreases files.len(),
{
    if files.len() > 0 {
        let front = files.drop_last();
        let last = files.last();
        assert forall|i: int, j: int| 0 <= i < j < front.len() implies (#[trigger] front[i]).name@
            != (#[trigger] front[j]).name@ by {
            assert(front[i] == files[i] && front[j] == files[j]);
        }
        lemma_file_map(front);
        assert forall|n: Seq<char>| #[trigger]
            file_map(files).contains_key(n) <==> has_name(files, n) by {
            if has_name(files, n) {
                let i = choose|i: int| 0 <= i < files.len() && (#[trigger] files[i]).name@ == n;
                if i < front.len() {
                    assert(front[i] == files[i]);
                    assert(has_name(front, n));
                }
            }
            if file_map(files).contains_key(n) && n != last.name@ {
                assert(file_map(front).contains_key(n));
                assert(has_name(front, n));
                let i = choose|i: int| 0 <= i < front.len() && (#[trigger] front[i]).name@ == n;
                assert(files[i] == front[i]);
            }
            if n == last.name@ {
                assert(files[files.len() - 1].name@ == n);
            }
        }
        assert forall|i: int| 0 <= i < files.len() implies file_map(files)[(#[trigger] files[
            i
        ]).name@] == files[i].content@ by {
            if i < front.len() {
                assert(front[i] == files[i]);
                assert(files[i].name@ != files[files.len() - 1].name@);
            }
        }
    }
}

/// Entries with the same names and contents, in the same order, are the
/// same blobs by name.
pub proof fn lemma_file_map_same(a: Seq<StoredFile>, b: Seq<StoredFile>, n: int)
    requires
        0 <= n <= a.len(),
        n <= b.len(),
        forall|k: int|
            0 <= k < n ==> (#[trigger] b[k]).name@ == a[k].name@ && b[k].content@ == a[k].content@,
    ensures
        file_map(a.take(n)) == file_map(b.take(n)),
    decreases n,
{
    if n > 0 {
        lemma_file_map_same(a, b, n - 1);
        assert(a.take(n).drop_last() =~= a.take(n - 1));
        assert(b.take(n).drop_last() =~= b.take(n - 1));
        assert(b[n - 1].name@ == a[n - 1].name@);
    }
}

/// A tree of named blobs. No two of its entries have one name.
#[derive(Debug, PartialEq)]
pub struct BlobTree {
    files: Vec<StoredFile>,
}

impl View for BlobTree {
    type V = Map<Seq<char>, Seq<u8>>;

    closed spec fn view(&self) -> Map<Seq<char>, Seq<u8>> {
        file_map(self.files@)
    }
}

impl Clone for BlobTree {
    /// A tree with the same blobs.
    fn clone(&self) -> (copy: BlobTree)
        ensures
            copy@ == self@,
    {
        proof {
            use_type_invariant(self);
        }
        let mut files: Vec<StoredFile> = Vec::new();
        let mut i: usize = 0;
        while i < self.files.len()
            invariant
                i <= self.files@.len(),
                files@.len() == i,
                forall|k: int|
                    0 <= k < i ==> (#[trigger] files@[k]).name@ == self.files@[k].name@
                        && files@[k].content@ == self.files@[k].content@,
            decreases self.files@.len() - i,
        {
            let entry = StoredFile {
                name: self.files[i].name.clone(),
                content: self.files[i].content.clone(),
            };
            assert(entry.content@ =~= self.files@[i as int].content@);
            files.push(entry);
            i += 1;
        }
        proof {
            lemma_file_map_same(self.files@, files@, files@.len() as int);
            assert(self.files@.take(files@.len() as int) =~= self.files@);
            assert(files@.take(files@.len() as int) =~= files@);
        }
        BlobTree { files }
    }
}

impl BlobTree {
    /// No two entries have one name.
    #[verifier::type_invariant]
    spec fn well_formed(self) -> bool {
        unique_names(self.files@)
    }

    /// An empty tree.
    pub fn new() -> (tree: BlobTree)
        ensures
            tree@ == Map::<Seq<char>, Seq<u8>>::empty(),
    {
        BlobTree { files: Vec::new() }
    }

    /// The position of the entry of the name, if there is one.
    fn find(&self, name: &str) -> (r: Option<usize>)
        ensures
            match r {
                Some(i) => i < self.files@.len() && self.files@[i as int].name@ == name@,
                None => !has_name(self.files@, name@),
            },
    {
        let mut i: usize = 0;
        while i < self.files.len()
            invariant
                i <= self.files@.len(),
                forall|k: int| 0 <= k < i ==> (#[trigger] self.files@[k]).name@ != name@,
            decreases self.files@.len() - i,
        {
            if same_text(self.files[i].name.as_str(), name) {
                return Some(i);
            }
            i += 1;
        }
        None
    }

    /// Whether a blob of this name is stored.
    pub fn contains(&self, name: &str) -> (b: bool)
        ensures
            b == self@.contains_key(name@),
    {
        proof {
            use_type_invariant(self);
            lemma_file_map(self.files@);
        }
        self.find(name).is_some()
    }

    /// The bytes stored under `name`.
    pub fn read(&self, name: &str) -> (r: Result<&Vec<u8>, HashIOError>)
        ensures
            match r {
                Ok(bytes) => self@.contains_key(name@) && bytes@ == self@[name@],
                Err(e) => !self@.contains_key(name@) && e@ == ErrorView::IOError(
                    IoFault::NotFound,
                ),
            },
    {
        proof {
            use_type_invariant(self);
            lemma_file_map(self.files@);
        }
        match self.find(name) {
            Some(i) => Ok(&self.files[i].content),
            None => Err(HashIOError::IOError(IoFault::NotFound)),
        }
    }

    /// Stores `content` under `name`, in place of what was stored there.
    pub fn create_file(&mut self, name: String, content: Vec<u8>)
        ensures
            final(self)@ == old(self)@.insert(name@, content@),
    {
        proof {
            use_type_invariant(&*self);
            lemma_file_map(self.files@);
        }
        let ghost before = self.files@;
        let ghost entry = StoredFile { name, content };
        match self.find(name.as_str()) {
            Some(i) => {
                let mut files: Vec<StoredFile> = Vec::new();
                std::mem::swap(&mut self.files, &mut files);
                files.set(i, StoredFile { name, content });
                proof {
                    let after = files@;
                    assert forall|a: int, b: int| 0 <= a < b < after.len() implies (#[trigger] after[
                        a
                    ]).name@ != (#[trigger] after[b]).name@ by {
                        assert(after[a].name@ == before[a].name@);
                        assert(after[b].name@ == before[b].name@);
                    }
                    lemma_file_map(after);
                    assert forall|n: Seq<char>| has_name(after, n) <==> has_name(before, n) by {
                        if has_name(after, n) {
                            let k = choose|k: int|
                                0 <= k < after.len() && (#[trigger] after[k]).name@ == n;
                            assert(before[k].name@ == n);
                        }
                        if has_name(before, n) {
                            let k = choose|k: int|
                                0 <= k < before.len() && (#[trigger] before[k]).name@ == n;
                            assert(after[k].name@ == n);
                        }
                    }
                    assert forall|n: Seq<char>| file_map(after).contains_key(n) implies file_map(
                        after,
                    )[n] == file_map(before).insert(entry.name@, entry.content@)[n] by {
                        let k = choose|k: int|
                            0 <= k < after.len() && (#[trigger] after[k]).name@ == n;
                        assert(before[k].name@ == n);
                        if k != i {
                            assert(after[k] == before[k]);
                        }
                    }
                    assert(file_map(after) =~= file_map(before).insert(
                        entry.name@,
                        entry.content@,
                    ));
                }
                self.files = files;
            },
            None => {
                let mut files: Vec<StoredFile> = Vec::new();
                std::mem::swap(&mut self.files, &mut files);
                files.push(StoredFile { name, content });
                proof {
                    let after = files@;
                    assert(after.drop_last() =~= before);
                    assert forall|a: int, b: int| 0 <= a < b < after.len() implies (#[trigger] after[
                        a
                    ]).name@ != (#[trigger] after[b]).name@ by {
                        if b < before.len() {
                            assert(after[a] == before[a] && after[b] == before[b]);
                        } else {
                            assert(after[a] == before[a]);
                        }
                    }
                }
                self.files = files;
            },
        }
    }

    /// Takes out what is stored under `name`.
    pub fn take_file(&mut self, name: &str) -> (r: Option<Vec<u8>>)
        ensures
            final(self)@ == old(self)@.remove(name@),
            match r {
                Some(content) => old(self)@.contains_key(name@) && content@ == old(self)@[name@],
                None => !old(self)@.contains_key(name@),
            },
    {
        proof {
            use_type_invariant(&*self);
            lemma_file_map(self.files@);
        }
        let ghost before = self.files@;
        match self.find(name) {
            Some(i) => {
                let mut files: Vec<StoredFile> = Vec::new();
                std::mem::swap(&mut self.files, &mut files);
                let taken = files.remove(i);
                proof {
                    let after = files@;
                    assert forall|a: int, b: int| 0 <= a < b < after.len() implies (#[trigger] after[
                        a
                    ]).name@ != (#[trigger] after[b]).name@ by {
                        let x = if a < i {
                            a
                        } else {
                            a + 1
                        };
                        let y = if b < i {
                            b
                        } else {
                            b + 1
                        };
                        assert(after[a] == before[x] && after[b] == before[y]);
                    }
                    lemma_file_map(after);
                    assert forall|n: Seq<char>| has_name(after, n) <==> (has_name(before, n) && n
                        != name@) by {
                        if has_name(after, n) {
                            let k = choose|k: int|
                                0 <= k < after.len() && (#[trigger] after[k]).name@ == n;
                            let x = if k < i {
                                k
                            } else {
                                k + 1
                            };
                            assert(before[x] == after[k]);
                            assert(before[x].name@ != before[i as int].name@);
                        }
                        if has_name(before, n) && n != name@ {
                            let k = choose|k: int|
                                0 <= k < before.len() && (#[trigger] before[k]).name@ == n;
                            let x = if k < i {
                                k
                            } else {
                                k - 1
                            };
                            assert(after[x] == before[k]);
                        }
                    }
                    assert forall|n: Seq<char>| file_map(after).contains_key(n) implies file_map(
                        after,
                    )[n] == file_map(before)[n] by {
                        let k = choose|k: int|
                            0 <= k < after.len() && (#[trigger] after[k]).name@ == n;
                        let x = if k < i {
                            k
                        } else {
                            k + 1
                        };
                        assert(before[x] == after[k]);
                    }
                    assert(file_map(after) =~= file_map(before).remove(name@));
                }
                self.files = files;
                Some(taken.content)
            },
            None => {
                assert(file_map(before) =~= file_map(before).remove(name@));
                None
            },
        }
    }

    /// Removes what is stored under `name`.
    pub fn remove_file(&mut self, name: &str)
        ensures
            final(self)@ == old(self)@.remove(name@),
    {
        let _ = self.take_file(name);
    }

    /// Gives what is stored under `from` the name `to`, in place of what was
    /// stored there.
    pub fn rename(&mut self, from: &str, to: String) -> (r: Result<(), HashIOError>)
        ensures
            match r {
                Ok(_) => old(self)@.contains_key(from@) && final(self)@ == old(self)@.remove(from@).insert(to@, old(self)@[from@]),
                Err(e) => !old(self)@.contains_key(from@) && e@ == ErrorView::IOError(
                    IoFault::NotFound,
                ) && final(self)@ == old(self)@,
            },
    {
        match self.take_file(from) {
            Some(content) => {
                self.create_file(to, content);
                Ok(())
            },
            None => {
                assert(old(self)@.remove(from@) =~= old(self)@);
                Err(HashIOError::IOError(IoFault::NotFound))
            },
        }
    }

    /// The entries of the tree, in the order in which they came. No two
    /// have one name.
    pub fn entries(&self) -> (files: &Vec<StoredFile>)
        ensures
            file_map(files@) == self@,
            unique_names(files@),
    {
        proof {
            use_type_invariant(self);
        }
        &self.files
    }
}

/// The directories that were created.
pub open spec fn dir_set(dirs: Seq<String>) -> Set<Seq<char>> {
    Set::new(|d: Seq<char>| exists|i: int| 0 <= i < dirs.len() && (#[trigger] dirs[i])@ == d)
}

/// Structure to store and load values: a tree of blobs below a base path,
/// and the directories that were created for them.
#[derive(Clone, Debug, PartialEq)]
pub struct HashIOFile {
    pub base_path: String,
    tree: BlobTree,
    dirs: Vec<String>,
}

/// The store as contracts speak of it.
pub struct HashIOFileView {
    pub base_path: Seq<char>,
    pub files: Map<Seq<char>, Seq<u8>>,
    pub dirs: Set<Seq<char>>,
}

impl View for HashIOFile {
    type V = HashIOFileView;

    closed spec fn view(&self) -> HashIOFileView {
        HashIOFileView {
            base_path: self.base_path@,
            files: self.tree@,
            dirs: dir_set(self.dirs@),
        }
    }
}

impl HashIOFile {
    /// An empty store below `path`.
    pub fn new(path: String) -> (store: HashIOFile)
        ensures
            store@.base_path == path@,
            store@.files == Map::<Seq<char>, Seq<u8>>::empty(),
            store@.dirs == Set::<Seq<char>>::empty(),
    {
        let store = HashIOFile { base_path: path, tree: BlobTree::new(), dirs: Vec::new() };
        assert(store@.dirs =~= Set::<Seq<char>>::empty());
        store
    }

    /// The base path.
    pub fn base(&self) -> (s: &String)
        ensures
            s@ == self@.base_path,
    {
        &self.base_path
    }

    /// The directory that holds the blob of `hash`.
    pub fn directory_for_hash(&self, hash: &Hash32) -> (dir: String)
        ensures
            dir@ == spec_directory(self@.base_path, hash@),
    {
        let mut result = String::new();
        result.append(self.base_path.as_str());
        push_char(&mut result, '/');
        hash.push_hex(&mut result, 0, 1);
        push_char(&mut result, '/');
        assert(result@ =~= spec_directory(self@.base_path, hash@));
        result
    }

    /// The name of the blob of `hash`.
    pub fn filename_for_hash(&self, hash: &Hash32) -> (name: String)
        ensures
            name@ == spec_filename(self@.base_path, hash@),
    {
        let mut result = self.directory_for_hash(hash);
        hash.push_hex(&mut result, 1, 32);
        result
    }

    /// Whether a blob of this name is stored.
    pub fn contains(&self, name: &str) -> (b: bool)
        ensures
            b == self@.files.contains_key(name@),
    {
        self.tree.contains(name)
    }

    /// The bytes stored under `name`.
    pub fn read(&self, name: &str) -> (r: Result<&Vec<u8>, HashIOError>)
        ensures
            match r {
                Ok(bytes) => self@.files.contains_key(name@) && bytes@ == self@.files[name@],
                Err(e) => !self@.files.contains_key(name@) && e@ == ErrorView::IOError(
                    IoFault::NotFound,
                ),
            },
    {
        self.tree.read(name)
    }

    /// Stores `content` under `name`, in place of what was stored there.
    pub fn create_file(&mut self, name: String, content: Vec<u8>)
        ensures
            final(self)@.base_path == old(self)@.base_path,
            final(self)@.dirs == old(self)@.dirs,
            final(self)@.files == old(self)@.files.insert(name@, content@),
    {
        self.tree.create_file(name, content);
    }

    /// Removes what is stored under `name`.
    pub fn remove_file(&mut self, name: &str)
        ensures
            final(self)@.base_path == old(self)@.base_path,
            final(self)@.dirs == old(self)@.dirs,
            final(self)@.files == old(self)@.files.remove(name@),
    {
        self.tree.remove_file(name);
    }

    /// Gives what is stored under `from` the name `to`, in place of what was
    /// stored there.
    pub fn rename(&mut self, from: &str, to: String) -> (r: Result<(), HashIOError>)
        ensures
            final(self)@.base_path == old(self)@.base_path,
            final(self)@.dirs == old(self)@.dirs,
            match r {
                Ok(_) => old(self)@.files.contains_key(from@) && final(self)@.files == old(
                    self,
                )@.files.remove(from@).insert(to@, old(self)@.files[from@]),
                Err(e) => !old(self)@.files.contains_key(from@) && e@ == ErrorView::IOError(
                    IoFault::NotFound,
                ) && final(self)@.files == old(self)@.files,
            },
    {
        self.tree.rename(from, to)
    }

    /// Whether the directory was created.
    pub fn has_directory(&self, dir: &str) -> (b: bool)
        ensures
            b == self@.dirs.contains(dir@),
    {
        let mut i: usize = 0;
        while i < self.dirs.len()
            invariant
                i <= self.dirs@.len(),
                forall|k: int| 0 <= k < i ==> (#[trigger] self.dirs@[k])@ != dir@,
            decreases self.dirs@.len() - i,
        {
            if same_text(self.dirs[i].as_str(), dir) {
                return true;
            }
            i += 1;
        }
        false
    }

    /// Creates the directory, with those above it, unless it is there.
    pub fn create_dir_all(&mut self, dir: String)
        ensures
            final(self)@.base_path == old(self)@.base_path,
            final(self)@.files == old(self)@.files,
            final(self)@.dirs == old(self)@.dirs.insert(dir@),
    {
        if self.has_directory(dir.as_str()) {
            assert(self@.dirs =~= self@.dirs.insert(dir@));
        } else {
            let ghost before = self.dirs@;
            let ghost name = dir@;
            self.dirs.push(dir);
            assert forall|d: Seq<char>| dir_set(self.dirs@).contains(d) == dir_set(before).insert(
                name,
            ).contains(d) by {
                if dir_set(self.dirs@).contains(d) {
                    let i = choose|i: int|
                        0 <= i < self.dirs@.len() && (#[trigger] self.dirs@[i])@ == d;
                    if i < before.len() {
                        assert(before[i]@ == d);
                    }
                }
                if dir_set(before).contains(d) {
                    let i = choose|i: int| 0 <= i < before.len() && (#[trigger] before[i])@ == d;
                    assert(self.dirs@[i]@ == d);
                }
                if d == name {
                    assert(self.dirs@[before.len() as int]@ == d);
                }
            }
            assert(self@.dirs =~= old(self)@.dirs.insert(name));
        }
    }

    /// The directories that were created, in the order in which they came.
    pub fn directories(&self) -> (dirs: &Vec<String>)
        ensures
            dir_set(dirs@) == self@.dirs,
    {
        &self.dirs
    }

    /// The entries of the tree, in the order in which they came. No two
    /// have one name.
    pub fn entries(&self) -> (files: &Vec<StoredFile>)
        ensures
            file_map(files@) == self@.files,
            unique_names(files@),
    {
        self.tree.entries()
    }
}

} // verus!
