//! A model of the slice of the filesystem that the store works on: which
//! directories exist (and whether files can be created in them), and which
//! regular files exist, keyed by directory and entry name, each with its
//! lines and its access rights.
//!
//! The model abstracts the platform in two ways: a directory that does not
//! exist can always be created (a directory that must not receive files is
//! modeled as present and unwritable), and removing an existing file always
//! succeeds.

use vstd::prelude::*;

verus! {

/// A regular file, as mathematical values.
pub struct FileView {
    /// Whether opening the file for reading succeeds.
    pub readable: bool,
    /// Whether opening the file for appending succeeds.
    pub writable: bool,
    /// The file's newline-terminated lines, in order.
    pub lines: Seq<Seq<char>>,
}

/// The modeled filesystem, as mathematical values.
pub struct FsView {
    /// Existing directories: path, and whether files can be created inside.
    pub dirs: Map<Seq<char>, bool>,
    /// Existing regular files, keyed by directory path and entry name.
    pub files: Map<(Seq<char>, Seq<char>), FileView>,
}

/// An existing directory.
#[derive(Clone)]
pub struct DirEntry {
    /// The directory's path.
    pub path: String,
    /// Whether files can be created or appended inside it.
    pub writable: bool,
}

/// An existing regular file.
#[derive(Clone)]
pub struct FileEntry {
    /// The path of the directory that holds the file.
    pub dir: String,
    /// The file's entry name inside that directory.
    pub name: String,
    /// Whether opening the file for reading succeeds.
    pub readable: bool,
    /// Whether opening the file for appending succeeds.
    pub writable: bool,
    /// The file's newline-terminated lines, in order.
    pub lines: Vec<String>,
}

impl View for FileEntry {
    type V = FileView;

    open spec fn view(&self) -> FileView {
        FileView { readable: self.readable, writable: self.writable, lines: self.lines.deep_view() }
    }
}

/// The key of a file entry in the view's file map.
pub open spec fn file_key(e: FileEntry) -> (Seq<char>, Seq<char>) {
    (e.dir@, e.name@)
}

/// The modeled filesystem.
#[derive(Clone)]
pub struct FsModel {
    dirs: Vec<DirEntry>,
    files: Vec<FileEntry>,
}

spec fn dirs_map(ds: Seq<DirEntry>) -> Map<Seq<char>, bool>
    decreases ds.len(),
{
    if ds.len() == 0 {
        Map::empty()
    } else {
        dirs_map(ds.drop_last()).insert(ds.last().path@, ds.last().writable)
    }
}

spec fn files_map(es: Seq<FileEntry>) -> Map<(Seq<char>, Seq<char>), FileView>
    decreases es.len(),
{
    if es.len() == 0 {
        Map::empty()
    } else {
        files_map(es.drop_last()).insert(file_key(es.last()), es.last()@)
    }
}

spec fn dirs_unique(ds: Seq<DirEntry>) -> bool {
    forall|i: int, j: int| 0 <= i < j < ds.len() ==> ds[i].path@ != ds[j].path@
}

spec fn files_unique(es: Seq<FileEntry>) -> bool {
    forall|i: int, j: int| 0 <= i < j < es.len() ==> file_key(es[i]) != file_key(es[j])
}

proof fn lemma_dirs_map_contains(ds: Seq<DirEntry>, p: Seq<char>)
    ensures
        dirs_map(ds).contains_key(p) <==> exists|i: int| 0 <= i < ds.len() && ds[i].path@ == p,
    decreases ds.len(),
{
    if ds.len() > 0 {
        lemma_dirs_map_contains(ds.drop_last(), p);
        if ds.last().path@ == p {
            assert(ds[ds.len() - 1].path@ == p);
        } else if dirs_map(ds).contains_key(p) {
            let i = choose|i: int| 0 <= i < ds.drop_last().len() && ds.drop_last()[i].path@ == p;
            assert(ds[i].path@ == p);
        } else if exists|i: int| 0 <= i < ds.len() && ds[i].path@ == p {
            let i = choose|i: int| 0 <= i < ds.len() && ds[i].path@ == p;
            assert(ds.drop_last()[i].path@ == p);
        }
    }
}

proof fn lemma_dirs_map_at(ds: Seq<DirEntry>, i: int)
    requires
        dirs_unique(ds),
        0 <= i < ds.len(),
    ensures
        dirs_map(ds).contains_key(ds[i].path@),
        dirs_map(ds)[ds[i].path@] == ds[i].writable,
    decreases ds.len(),
{
    if i == ds.len() - 1 {
    } else {
        assert(ds.drop_last()[i] == ds[i]);
        lemma_dirs_map_at(ds.drop_last(), i);
        assert(ds[i].path@ != ds.last().path@);
    }
}

proof fn lemma_files_map_contains(es: Seq<FileEntry>, k: (Seq<char>, Seq<char>))
    ensures
        files_map(es).contains_key(k) <==> exists|i: int| 0 <= i < es.len() && file_key(es[i]) == k,
    decreases es.len(),
{
    if es.len() > 0 {
        lemma_files_map_contains(es.drop_last(), k);
        if file_key(es.last()) == k {
            assert(file_key(es[es.len() - 1]) == k);
        } else if files_map(es).contains_key(k) {
            let i = choose|i: int|
                0 <= i < es.drop_last().len() && file_key(es.drop_last()[i]) == k;
            assert(file_key(es[i]) == k);
        } else if exists|i: int| 0 <= i < es.len() && file_key(es[i]) == k {
            let i = choose|i: int| 0 <= i < es.len() && file_key(es[i]) == k;
            assert(file_key(es.drop_last()[i]) == k);
        }
    }
}

proof fn lemma_files_map_at(es: Seq<FileEntry>, i: int)
    requires
        files_unique(es),
        0 <= i < es.len(),
    ensures
        files_map(es).contains_key(file_key(es[i])),
        files_map(es)[file_key(es[i])] == es[i]@,
    decreases es.len(),
{
    if i == es.len() - 1 {
    } else {
        assert(es.drop_last()[i] == es[i]);
        lemma_files_map_at(es.drop_last(), i);
        assert(file_key(es[i]) != file_key(es.last()));
    }
}

proof fn lemma_files_map_remove(es: Seq<FileEntry>, i: int)
    requires
        files_unique(es),
        0 <= i < es.len(),
    ensures
        files_map(es.remove(i)) =~= files_map(es).remove(file_key(es[i])),
    decreases es.len(),
{
    if i == es.len() - 1 {
        assert(es.remove(i) =~= es.drop_last());
        lemma_files_map_contains(es.drop_last(), file_key(es[i]));
        assert(!files_map(es.drop_last()).contains_key(file_key(es[i])));
        assert(files_map(es.drop_last()) =~= files_map(es).remove(file_key(es[i])));
    } else {
        assert(es.remove(i).last() == es.last());
        assert(es.remove(i).drop_last() =~= es.drop_last().remove(i));
        assert(es.drop_last()[i] == es[i]);
        assert(files_unique(es.drop_last()));
        lemma_files_map_remove(es.drop_last(), i);
        assert(file_key(es[i]) != file_key(es.last()));
        assert(files_map(es.remove(i)) =~= files_map(es.drop_last().remove(i)).insert(
            file_key(es.last()),
            es.last()@,
        ));
    }
}

impl View for FsModel {
    type V = FsView;

    closed spec fn view(&self) -> FsView {
        FsView { dirs: dirs_map(self.dirs@), files: files_map(self.files@) }
    }
}

impl FsModel {
    /// The model is internally consistent: directory paths are unique, file
    /// keys are unique, and every file's directory exists.
    pub closed spec fn wf(&self) -> bool {
        &&& dirs_unique(self.dirs@)
        &&& files_unique(self.files@)
        &&& forall|i: int|
            0 <= i < self.files@.len() ==> dirs_map(self.dirs@).contains_key(
                self.files@[i].dir@,
            )
    }

    /// An empty filesystem: no directories, no files.
    pub fn empty() -> (r: FsModel)
        ensures
            r.wf(),
            r@.dirs == Map::<Seq<char>, bool>::empty(),
            r@.files == Map::<(Seq<char>, Seq<char>), FileView>::empty(),
    {
        FsModel { dirs: Vec::new(), files: Vec::new() }
    }

    fn find_dir(&self, path: &str) -> (r: Option<usize>)
        ensures
            match r {
                Some(i) => i < self.dirs@.len() && self.dirs@[i as int].path@ == path@,
                None => forall|i: int| 0 <= i < self.dirs@.len() ==> self.dirs@[i].path@ != path@,
            },
    {
        let mut i: usize = 0;
        while i < self.dirs.len()
            invariant
                i <= self.dirs@.len(),
                forall|j: int| 0 <= j < i ==> self.dirs@[j].path@ != path@,
            decreases self.dirs@.len() - i,
        {
            if crate::strutil::str_eq(self.dirs[i].path.as_str(), path) {
                return Some(i);
            }
            i = i + 1;
        }
        None
    }

    fn find_file(&self, dir: &str, name: &str) -> (r: Option<usize>)
        ensures
            match r {
                Some(i) => i < self.files@.len() && file_key(self.files@[i as int]) == (
                    dir@,
                    name@,
                ),
                None => forall|i: int|
                    0 <= i < self.files@.len() ==> file_key(self.files@[i]) != (dir@, name@),
            },
    {
        let mut i: usize = 0;
        while i < self.files.len()
            invariant
                i <= self.files@.len(),
                forall|j: int| 0 <= j < i ==> file_key(self.files@[j]) != (dir@, name@),
            decreases self.files@.len() - i,
        {
            if crate::strutil::str_eq(self.files[i].dir.as_str(), dir) && crate::strutil::str_eq(
                self.files[i].name.as_str(),
                name,
            ) {
                return Some(i);
            }
            i = i + 1;
        }
        None
    }

    /// Whether a directory exists at `path`.
    pub fn dir_exists(&self, path: &str) -> (r: bool)
        ensures
            r == self@.dirs.contains_key(path@),
    {
        let found = self.find_dir(path);
        proof {
            lemma_dirs_map_contains(self.dirs@, path@);
        }
        found.is_some()
    }

    /// Whether files can be created or appended inside the directory.
    pub fn dir_writable(&self, path: &str) -> (r: bool)
        requires
            self.wf(),
            self@.dirs.contains_key(path@),
        ensures
            r == self@.dirs[path@],
    {
        proof {
            lemma_dirs_map_contains(self.dirs@, path@);
        }
        match self.find_dir(path) {
            Some(i) => {
                proof {
                    lemma_dirs_map_at(self.dirs@, i as int);
                }
                self.dirs[i].writable
            },
            None => unreached(),
        }
    }

    /// The file at `dir`/`name`, when one exists.
    pub fn get_file(&self, dir: &str, name: &str) -> (r: Option<&FileEntry>)
        requires
            self.wf(),
        ensures
            match r {
                Some(e) => self@.files.contains_key((dir@, name@)) && e@ == self@.files[
                    (dir@, name@)
                ] && e.dir@ == dir@ && e.name@ == name@,
                None => !self@.files.contains_key((dir@, name@)),
            },
    {
        proof {
            lemma_files_map_contains(self.files@, (dir@, name@));
        }
        match self.find_file(dir, name) {
            Some(i) => {
                proof {
                    lemma_files_map_at(self.files@, i as int);
                }
                Some(&self.files[i])
            },
            None => None,
        }
    }

    /// Whether a regular file exists at `dir`/`name`.
    pub fn file_exists(&self, dir: &str, name: &str) -> (r: bool)
        requires
            self.wf(),
        ensures
            r == self@.files.contains_key((dir@, name@)),
    {
        self.get_file(dir, name).is_some()
    }

    /// Create a directory that does not exist yet.
    pub fn create_dir(&mut self, path: &str, writable: bool)
        requires
            old(self).wf(),
            !old(self)@.dirs.contains_key(path@),
        ensures
            final(self).wf(),
            final(self)@.dirs == old(self)@.dirs.insert(path@, writable),
            final(self)@.files == old(self)@.files,
    {
        let e = DirEntry { path: String::from_str(path), writable };
        proof {
            lemma_dirs_map_contains(self.dirs@, path@);
        }
        self.dirs.push(e);
        proof {
            assert(self.dirs@.drop_last() =~= old(self).dirs@);
            assert(self.dirs@.last().path@ == path@);
            assert(dirs_map(self.dirs@) == dirs_map(old(self).dirs@).insert(path@, writable));
            assert forall|i: int, j: int|
                0 <= i < j < self.dirs@.len() implies self.dirs@[i].path@
                != self.dirs@[j].path@ by {
                if j == self.dirs@.len() - 1 {
                    assert(self.dirs@[i] == old(self).dirs@[i]);
                } else {
                    assert(self.dirs@[i] == old(self).dirs@[i]);
                    assert(self.dirs@[j] == old(self).dirs@[j]);
                }
            }
        }
    }

    /// Record an existing regular file with the given access rights and
    /// lines. The file's directory must exist; the file must not.
    pub fn add_file(&mut self, dir: &str, name: &str, readable: bool, writable: bool, lines: Vec<
        String,
    >)
        requires
            old(self).wf(),
            old(self)@.dirs.contains_key(dir@),
            !old(self)@.files.contains_key((dir@, name@)),
        ensures
            final(self).wf(),
            final(self)@.dirs == old(self)@.dirs,
            final(self)@.files == old(self)@.files.insert(
                (dir@, name@),
                (FileView { readable, writable, lines: lines.deep_view() }),
            ),
    {
        let ghost lv = lines.deep_view();
        let e = FileEntry {
            dir: String::from_str(dir),
            name: String::from_str(name),
            readable,
            writable,
            lines,
        };
        proof {
            lemma_files_map_contains(self.files@, (dir@, name@));
        }
        self.files.push(e);
        proof {
            assert(self.files@.drop_last() =~= old(self).files@);
            assert(file_key(self.files@.last()) == (dir@, name@));
            assert(self.files@.last()@ == (FileView { readable, writable, lines: lv }));
            assert(files_map(self.files@) == files_map(old(self).files@).insert(
                (dir@, name@),
                (FileView { readable, writable, lines: lv }),
            ));
            assert forall|i: int, j: int|
                0 <= i < j < self.files@.len() implies file_key(self.files@[i]) != file_key(
                self.files@[j],
            ) by {
                if j == self.files@.len() - 1 {
                    assert(self.files@[i] == old(self).files@[i]);
                } else {
                    assert(self.files@[i] == old(self).files@[i]);
                    assert(self.files@[j] == old(self).files@[j]);
                }
            }
            assert forall|i: int|
                0 <= i < self.files@.len() implies dirs_map(self.dirs@).contains_key(
                self.files@[i].dir@,
            ) by {
                if i < self.files@.len() - 1 {
                    assert(self.files@[i] == old(self).files@[i]);
                }
            }
        }
    }

    /// Append one line to an existing file, leaving its access rights as
    /// they were.
    pub fn append_line(&mut self, dir: &str, name: &str, line: &str)
        requires
            old(self).wf(),
            old(self)@.files.contains_key((dir@, name@)),
        ensures
            final(self).wf(),
            final(self)@.dirs == old(self)@.dirs,
            final(self)@.files == old(self)@.files.insert(
                (dir@, name@),
                (FileView {
                    readable: old(self)@.files[(dir@, name@)].readable,
                    writable: old(self)@.files[(dir@, name@)].writable,
                    lines: old(self)@.files[(dir@, name@)].lines.push(line@),
                }),
            ),
    {
        proof {
            lemma_files_map_contains(self.files@, (dir@, name@));
        }
        match self.find_file(dir, name) {
            Some(i) => {
                proof {
                    lemma_files_map_at(self.files@, i as int);
                    lemma_files_map_remove(self.files@, i as int);
                }
                let ghost before = self.files@;
                let mut e = self.files.remove(i);
                let ghost oldlines = e.lines.deep_view();
                e.lines.push(String::from_str(line));
                proof {
                    assert(e.lines.deep_view() =~= oldlines.push(line@));
                }
                let ghost e2 = e;
                self.files.push(e);
                proof {
                    assert(self.files@.drop_last() =~= before.remove(i as int));
                    assert(self.files@.last() == e2);
                    assert(file_key(e2) == (dir@, name@));
                    assert(files_map(self.files@) == files_map(before.remove(i as int)).insert(
                        (dir@, name@),
                        e2@,
                    ));
                    assert(files_map(self.files@) =~= files_map(before).insert((dir@, name@), e2@));
                    lemma_unique_after_remove_push(before, i as int, e2);
                    assert forall|j: int|
                        0 <= j < self.files@.len() implies dirs_map(self.dirs@).contains_key(
                        self.files@[j].dir@,
                    ) by {
                        if j < self.files@.len() - 1 {
                            let k = if j < i as int {
                                j
                            } else {
                                j + 1
                            };
                            assert(self.files@[j] == before[k]);
                        } else {
                            assert(self.files@[j].dir@ == before[i as int].dir@);
                        }
                    }
                }
            },
            None => unreached(),
        }
    }

    /// Remove an existing file.
    pub fn remove_file(&mut self, dir: &str, name: &str)
        requires
            old(self).wf(),
            old(self)@.files.contains_key((dir@, name@)),
        ensures
            final(self).wf(),
            final(self)@.dirs == old(self)@.dirs,
            final(self)@.files == old(self)@.files.remove((dir@, name@)),
    {
        proof {
            lemma_files_map_contains(self.files@, (dir@, name@));
        }
        match self.find_file(dir, name) {
            Some(i) => {
                proof {
                    lemma_files_map_remove(self.files@, i as int);
                }
                let ghost before = self.files@;
                let _ = self.files.remove(i);
                proof {
                    assert forall|j: int, k: int|
                        0 <= j < k < self.files@.len() implies file_key(self.files@[j])
                        != file_key(self.files@[k]) by {
                        let j2 = if j < i as int {
                            j
                        } else {
                            j + 1
                        };
                        let k2 = if k < i as int {
                            k
                        } else {
                            k + 1
                        };
                        assert(self.files@[j] == before[j2]);
                        assert(self.files@[k] == before[k2]);
                    }
                    assert forall|j: int|
                        0 <= j < self.files@.len() implies dirs_map(self.dirs@).contains_key(
                        self.files@[j].dir@,
                    ) by {
                        let j2 = if j < i as int {
                            j
                        } else {
                            j + 1
                        };
                        assert(self.files@[j] == before[j2]);
                    }
                }
            },
            None => unreached(),
        }
    }
}

impl FsModel {
    /// The entry names of the regular files directly inside `dir`.
    pub fn list_names_in(&self, dir: &str) -> (r: Vec<String>)
        requires
            self.wf(),
        ensures
            forall|n: Seq<char>|
                r.deep_view().contains(n) <==> self@.files.contains_key((dir@, n)),
    {
        let mut r: Vec<String> = Vec::new();
        let mut i: usize = 0;
        while i < self.files.len()
            invariant
                i <= self.files@.len(),
                forall|n: Seq<char>|
                    r.deep_view().contains(n) <==> exists|j: int|
                        0 <= j < i && file_key(self.files@[j]) == (dir@, n),
            decreases self.files@.len() - i,
        {
            let ghost prev = r.deep_view();
            if crate::strutil::str_eq(self.files[i].dir.as_str(), dir) {
                r.push(self.files[i].name.clone());
                proof {
                    assert(r.deep_view() =~= prev.push(self.files@[i as int].name@));
                }
            }
            proof {
                let fi = self.files@[i as int];
                assert forall|n: Seq<char>|
                    r.deep_view().contains(n) <==> exists|j: int|
                        0 <= j < i + 1 && file_key(self.files@[j]) == (dir@, n) by {
                    if fi.dir@ == dir@ {
                        if r.deep_view().contains(n) {
                            let w = choose|w: int|
                                0 <= w < r.deep_view().len() && r.deep_view()[w] == n;
                            if w < prev.len() {
                                assert(prev[w] == n);
                                assert(prev.contains(n));
                            } else {
                                assert(n == fi.name@);
                                assert(file_key(self.files@[i as int]) == (dir@, n));
                            }
                        }
                        if exists|j: int| 0 <= j < i + 1 && file_key(self.files@[j]) == (dir@, n) {
                            let j = choose|j: int|
                                0 <= j < i + 1 && file_key(self.files@[j]) == (dir@, n);
                            if j < i {
                                assert(prev.contains(n));
                                let w = choose|w: int| 0 <= w < prev.len() && prev[w] == n;
                                assert(r.deep_view()[w] == n);
                            } else {
                                assert(r.deep_view()[r.deep_view().len() - 1] == n);
                            }
                        }
                    } else {
                        if exists|j: int| 0 <= j < i + 1 && file_key(self.files@[j]) == (dir@, n) {
                            let j = choose|j: int|
                                0 <= j < i + 1 && file_key(self.files@[j]) == (dir@, n);
                            assert(j < i);
                        }
                    }
                }
            }
            i = i + 1;
        }
        proof {
            assert forall|n: Seq<char>|
                r.deep_view().contains(n) <==> self@.files.contains_key((dir@, n)) by {
                lemma_files_map_contains(self.files@, (dir@, n));
            }
        }
        r
    }
}

proof fn lemma_unique_after_remove_push(es: Seq<FileEntry>, i: int, e: FileEntry)
    requires
        files_unique(es),
        0 <= i < es.len(),
        file_key(e) == file_key(es[i]),
    ensures
        files_unique(es.remove(i).push(e)),
{
    let nd = es.remove(i).push(e);
    assert forall|j: int, k: int|
        0 <= j < k < nd.len() implies file_key(nd[j]) != file_key(nd[k]) by {
        let j2 = if j < i {
            j
        } else {
            j + 1
        };
        if k == nd.len() - 1 {
            assert(nd[j] == es[j2]);
            assert(file_key(nd[k]) == file_key(es[i]));
        } else {
            let k2 = if k < i {
                k
            } else {
                k + 1
            };
            assert(nd[j] == es[j2]);
            assert(nd[k] == es[k2]);
        }
    }
}

} // verus!
