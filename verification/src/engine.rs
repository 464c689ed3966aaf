//! The storage engine: lookup, store and delete against the ordered
//! candidate locations that the resolver produces, over the modeled
//! filesystem.

use vstd::prelude::*;

use crate::fs::{FileView, FsModel, FsView};
use crate::resolver::{spec_base_dirs, Config};
use crate::strutil::{join_lines, join_path, spec_join_lines, spec_join_path, str_eq};

verus! {

/// Why an operation returned nothing.
#[derive(Clone, Copy, Debug, PartialEq, Eq, Structural)]
pub enum DefineError {
    /// No candidate file could be opened for reading: nothing to display.
    NotFound,
    /// No candidate location could be materialized or opened for appending.
    WriteFailure,
    /// Nothing to delete: no candidate file exists for the key.
    NoDeleteCandidate,
}

impl DefineError {
    /// A short description, for the presentation layer.
    pub fn message(&self) -> (r: &'static str)
    {
        match self {
            DefineError::NotFound => "no definition found",
            DefineError::WriteFailure => "no writable location for the definition",
            DefineError::NoDeleteCandidate => "no candidate definitions for deletion",
        }
    }
}

/// The base directories, in priority order, whose candidate file for `key`
/// exists.
pub open spec fn spec_read_dirs(fsv: FsView, ds: Seq<Seq<char>>, key: Seq<char>) -> Seq<Seq<char>>
    decreases ds.len(),
{
    if ds.len() == 0 {
        Seq::empty()
    } else {
        let rest = spec_read_dirs(fsv, ds.drop_first(), key);
        if fsv.files.contains_key((ds[0], key)) {
            seq![ds[0]] + rest
        } else {
            rest
        }
    }
}

/// The lines of the first candidate file for `key` that exists and opens
/// for reading, in base directory order; `None` when no candidate does.
pub open spec fn spec_lookup_lines(fsv: FsView, ds: Seq<Seq<char>>, key: Seq<char>) -> Option<
    Seq<Seq<char>>,
>
    decreases ds.len(),
{
    if ds.len() == 0 {
        None
    } else {
        let k = (ds[0], key);
        if fsv.files.contains_key(k) && fsv.files[k].readable {
            Some(fsv.files[k].lines)
        } else {
            spec_lookup_lines(fsv, ds.drop_first(), key)
        }
    }
}

/// The content a lookup returns: the lines of the first readable candidate
/// file, joined with one newline after each.
pub open spec fn spec_lookup_content(fsv: FsView, ds: Seq<Seq<char>>, key: Seq<char>) -> Option<
    Seq<char>,
>  {
    match spec_lookup_lines(fsv, ds, key) {
        Some(lines) => Some(spec_join_lines(lines)),
        None => None,
    }
}

/// Whether a store can land on the candidate for `key` in directory `d`: an
/// existing file must open for read and append; where no file exists, the
/// directory must accept new files or not exist yet (it is then created).
pub open spec fn candidate_writable(fsv: FsView, d: Seq<char>, key: Seq<char>) -> bool {
    let k = (d, key);
    if fsv.files.contains_key(k) {
        fsv.files[k].readable && fsv.files[k].writable
    } else {
        !fsv.dirs.contains_key(d) || fsv.dirs[d]
    }
}

/// The index of the base directory a store for `key` lands on: the first
/// writable candidate in priority order, independent of whether lower
/// priority files already exist.
pub open spec fn store_target(fsv: FsView, ds: Seq<Seq<char>>, key: Seq<char>) -> Option<int>
    decreases ds.len(),
{
    if ds.len() == 0 {
        None
    } else if candidate_writable(fsv, ds[0], key) {
        Some(0int)
    } else {
        match store_target(fsv, ds.drop_first(), key) {
            Some(i) => Some(i + 1),
            None => None,
        }
    }
}

/// The store target is the first writable candidate and nothing earlier is
/// writable; when there is none, no candidate is writable.
pub proof fn lemma_store_target_first(fsv: FsView, ds: Seq<Seq<char>>, key: Seq<char>)
    ensures
        match store_target(fsv, ds, key) {
            Some(i) => 0 <= i < ds.len() && candidate_writable(fsv, ds[i], key) && forall|j: int|
                0 <= j < i ==> !candidate_writable(fsv, ds[j], key),
            None => forall|j: int| 0 <= j < ds.len() ==> !candidate_writable(fsv, ds[j], key),
        },
    decreases ds.len(),
{
    if ds.len() > 0 && !candidate_writable(fsv, ds[0], key) {
        lemma_store_target_first(fsv, ds.drop_first(), key);
        assert forall|j: int| 0 < j < ds.len() implies ds.drop_first()[j - 1] == ds[j] by {}
    }
}

/// Conversely, the first writable candidate is the store target.
pub proof fn lemma_store_target_of_first(fsv: FsView, ds: Seq<Seq<char>>, key: Seq<char>, i: int)
    requires
        0 <= i < ds.len(),
        candidate_writable(fsv, ds[i], key),
        forall|j: int| 0 <= j < i ==> !candidate_writable(fsv, ds[j], key),
    ensures
        store_target(fsv, ds, key) == Some(i),
    decreases i,
{
    if i > 0 {
        assert(!candidate_writable(fsv, ds[0], key));
        assert(ds.drop_first()[i - 1] == ds[i]);
        assert forall|j: int| 0 <= j < i - 1 implies !candidate_writable(
            fsv,
            ds.drop_first()[j],
            key,
        ) by {
            assert(ds.drop_first()[j] == ds[j + 1]);
        }
        lemma_store_target_of_first(fsv, ds.drop_first(), key, i - 1);
    }
}

/// When no candidate is writable, there is no store target.
pub proof fn lemma_store_target_none(fsv: FsView, ds: Seq<Seq<char>>, key: Seq<char>)
    requires
        forall|j: int| 0 <= j < ds.len() ==> !candidate_writable(fsv, ds[j], key),
    ensures
        store_target(fsv, ds, key) is None,
    decreases ds.len(),
{
    if ds.len() > 0 {
        assert forall|j: int| 0 <= j < ds.drop_first().len() implies !candidate_writable(
            fsv,
            ds.drop_first()[j],
            key,
        ) by {
            assert(ds.drop_first()[j] == ds[j + 1]);
        }
        lemma_store_target_none(fsv, ds.drop_first(), key);
    }
}

/// Read candidates are unchanged by dropping a prefix of directories whose
/// candidate file does not exist.
pub proof fn lemma_read_dirs_skip(fsv: FsView, ds: Seq<Seq<char>>, key: Seq<char>, i: int)
    requires
        0 <= i <= ds.len(),
        forall|j: int| 0 <= j < i ==> !fsv.files.contains_key((ds[j], key)),
    ensures
        spec_read_dirs(fsv, ds, key) == spec_read_dirs(fsv, ds.skip(i), key),
    decreases i,
{
    if i == 0 {
        assert(ds.skip(0) =~= ds);
    } else {
        lemma_read_dirs_skip(fsv, ds, key, i - 1);
        let t = ds.skip(i - 1);
        assert(t[0] == ds[i - 1]);
        assert(t.drop_first() =~= ds.skip(i));
        assert(!fsv.files.contains_key((t[0], key)));
        assert(spec_read_dirs(fsv, t, key) == spec_read_dirs(fsv, t.drop_first(), key));
    }
}

/// A lookup is unchanged by dropping a prefix of directories whose
/// candidate file does not exist or does not open for reading.
pub proof fn lemma_lookup_skip(fsv: FsView, ds: Seq<Seq<char>>, key: Seq<char>, i: int)
    requires
        0 <= i <= ds.len(),
        forall|j: int|
            0 <= j < i ==> !(fsv.files.contains_key((ds[j], key)) && fsv.files[
                (ds[j], key)
            ].readable),
    ensures
        spec_lookup_lines(fsv, ds, key) == spec_lookup_lines(fsv, ds.skip(i), key),
    decreases i,
{
    if i == 0 {
        assert(ds.skip(0) =~= ds);
    } else {
        lemma_lookup_skip(fsv, ds, key, i - 1);
        let t = ds.skip(i - 1);
        assert(t[0] == ds[i - 1]);
        assert(t.drop_first() =~= ds.skip(i));
        assert(!(fsv.files.contains_key((t[0], key)) && fsv.files[(t[0], key)].readable));
        assert(spec_lookup_lines(fsv, t, key) == spec_lookup_lines(fsv, t.drop_first(), key));
    }
}

/// A lookup returns the lines of candidate `i` when every earlier candidate
/// is missing or unreadable and candidate `i` exists and reads.
pub proof fn lemma_lookup_at_first(fsv: FsView, ds: Seq<Seq<char>>, key: Seq<char>, i: int)
    requires
        0 <= i < ds.len(),
        forall|j: int|
            0 <= j < i ==> !(fsv.files.contains_key((ds[j], key)) && fsv.files[
                (ds[j], key)
            ].readable),
        fsv.files.contains_key((ds[i], key)),
        fsv.files[(ds[i], key)].readable,
    ensures
        spec_lookup_lines(fsv, ds, key) == Some(fsv.files[(ds[i], key)].lines),
{
    lemma_lookup_skip(fsv, ds, key, i);
    let t = ds.skip(i);
    assert(t[0] == ds[i]);
}

/// Whether some existing line is an exact, full-line match of `value`: the
/// dedup check a store makes before appending.
pub fn contains_exact_line(lines: &Vec<String>, value: &str) -> (r: bool)
    ensures
        r == lines.deep_view().contains(value@),
{
    let mut i: usize = 0;
    while i < lines.len()
        invariant
            i <= lines@.len(),
            forall|j: int| 0 <= j < i ==> lines.deep_view()[j] != value@,
        decreases lines@.len() - i,
    {
        if str_eq(lines[i].as_str(), value) {
            proof {
                assert(lines.deep_view()[i as int] == value@);
            }
            return true;
        }
        i = i + 1;
    }
    proof {
        assert forall|j: int| 0 <= j < lines.deep_view().len() implies lines.deep_view()[j]
            != value@ by {}
    }
    false
}

/// The candidate paths for `key` whose file currently exists, highest
/// priority first: the paths a lookup or a delete will consider.
pub fn gather_candidate_read_paths(fs: &FsModel, cfg: &Config, key: &str) -> (r: Vec<String>)
    requires
        fs.wf(),
    ensures
        r.deep_view() == spec_read_dirs(fs@, spec_base_dirs(cfg@), key@).map_values(
            |d: Seq<char>| spec_join_path(d, key@),
        ),
{
    let ghost f = |d: Seq<char>| spec_join_path(d, key@);
    let dirs = crate::resolver::list_content_paths(cfg);
    let ghost dv = dirs.deep_view();
    let mut r: Vec<String> = Vec::new();
    let mut i: usize = 0;
    proof {
        assert(dv.skip(0) =~= dv);
        assert(r.deep_view() + spec_read_dirs(fs@, dv, key@).map_values(f) =~= spec_read_dirs(
            fs@,
            dv,
            key@,
        ).map_values(f));
    }
    while i < dirs.len()
        invariant
            i <= dirs@.len(),
            fs.wf(),
            dv == dirs.deep_view(),
            dv.len() == dirs@.len(),
            f == (|d: Seq<char>| spec_join_path(d, key@)),
            spec_read_dirs(fs@, dv, key@).map_values(f) == r.deep_view() + spec_read_dirs(
                fs@,
                dv.skip(i as int),
                key@,
            ).map_values(f),
        decreases dirs@.len() - i,
    {
        let ghost t = dv.skip(i as int);
        proof {
            assert(t[0] == dv[i as int]);
            assert(t.drop_first() =~= dv.skip(i + 1));
            assert(dirs@[i as int]@ == dv[i as int]);
        }
        let ghost prev = r.deep_view();
        if fs.file_exists(dirs[i].as_str(), key) {
            r.push(join_path(dirs[i].as_str(), key));
            proof {
                assert(r.deep_view() =~= prev.push(f(dv[i as int])));
                assert(spec_read_dirs(fs@, t, key@) =~= seq![dv[i as int]] + spec_read_dirs(
                    fs@,
                    dv.skip(i + 1),
                    key@,
                ));
                assert(spec_read_dirs(fs@, t, key@).map_values(f) =~= seq![f(dv[i as int])]
                    + spec_read_dirs(fs@, dv.skip(i + 1), key@).map_values(f));
                assert(prev + spec_read_dirs(fs@, t, key@).map_values(f) =~= r.deep_view()
                    + spec_read_dirs(fs@, dv.skip(i + 1), key@).map_values(f));
            }
        } else {
            proof {
                assert(spec_read_dirs(fs@, t, key@) == spec_read_dirs(fs@, dv.skip(i + 1), key@));
            }
        }
        i = i + 1;
    }
    proof {
        assert(dv.skip(dirs@.len() as int) =~= Seq::<Seq<char>>::empty());
        assert(spec_read_dirs(fs@, dv.skip(dirs@.len() as int), key@).map_values(f)
            =~= Seq::<Seq<char>>::empty());
        assert(r.deep_view() + Seq::<Seq<char>>::empty() =~= r.deep_view());
    }
    r
}

/// The content of the first candidate whose file opens for reading, `None`
/// when none does: candidates are tried in the order given, and one that
/// exists but fails to open is skipped, not fatal.
pub fn load_from_appropriate_path(fs: &FsModel, dirs: &Vec<String>, key: &str) -> (r: Option<
    String,
>)
    requires
        fs.wf(),
    ensures
        r.deep_view() == spec_lookup_content(fs@, dirs.deep_view(), key@),
{
    let ghost dv = dirs.deep_view();
    let mut i: usize = 0;
    while i < dirs.len()
        invariant
            i <= dirs@.len(),
            fs.wf(),
            dv == dirs.deep_view(),
            dv.len() == dirs@.len(),
            forall|j: int|
                0 <= j < i ==> !(fs@.files.contains_key((dv[j], key@)) && fs@.files[
                    (dv[j], key@)
                ].readable),
        decreases dirs@.len() - i,
    {
        proof {
            assert(dirs@[i as int]@ == dv[i as int]);
        }
        match fs.get_file(dirs[i].as_str(), key) {
            Some(e) => {
                if e.readable {
                    let c = join_lines(&e.lines);
                    proof {
                        lemma_lookup_skip(fs@, dv, key@, i as int);
                        let t = dv.skip(i as int);
                        assert(t[0] == dv[i as int]);
                        assert(spec_lookup_lines(fs@, t, key@) == Some(
                            fs@.files[(dv[i as int], key@)].lines,
                        ));
                    }
                    return Some(c);
                }
            },
            None => {},
        }
        i = i + 1;
    }
    proof {
        lemma_lookup_skip(fs@, dv, key@, dv.len() as int);
        assert(dv.skip(dv.len() as int) =~= Seq::<Seq<char>>::empty());
    }
    None
}

/// The content of the first candidate file for `key` that opens for
/// reading, across the configured base directories, or `None` when no
/// candidate exists or opens.
pub fn lookup_content(fs: &FsModel, cfg: &Config, key: &str) -> (r: Option<String>)
    requires
        fs.wf(),
    ensures
        r.deep_view() == spec_lookup_content(fs@, spec_base_dirs(cfg@), key@),
{
    let dirs = crate::resolver::list_content_paths(cfg);
    load_from_appropriate_path(fs, &dirs, key)
}

/// Look a key up: the content of the highest-priority readable candidate
/// file, or `NotFound` when no candidate opens. `NotFound` is an expected
/// outcome, not a crash.
pub fn lookup(fs: &FsModel, cfg: &Config, key: &str) -> (r: Result<String, DefineError>)
    requires
        fs.wf(),
    ensures
        match spec_lookup_content(fs@, spec_base_dirs(cfg@), key@) {
            Some(c) => r matches Ok(s) && s@ == c,
            None => r matches Err(e) && e == DefineError::NotFound,
        },
{
    match lookup_content(fs, cfg, key) {
        Some(c) => Ok(c),
        None => Err(DefineError::NotFound),
    }
}

/// A key's content for an export, with a missing or unreadable definition
/// reported as `NotFound`.
pub fn load_term_content(fs: &FsModel, cfg: &Config, key: &str) -> (r: Result<
    String,
    DefineError,
>)
    requires
        fs.wf(),
    ensures
        match spec_lookup_content(fs@, spec_base_dirs(cfg@), key@) {
            Some(c) => r matches Ok(s) && s@ == c,
            None => r matches Err(e) && e == DefineError::NotFound,
        },
{
    lookup(fs, cfg, key)
}

/// Make sure the directory a candidate file would live in exists: a missing
/// directory is created (in this model, creation always succeeds and the
/// new directory accepts files); an existing one is left untouched.
pub fn materialize_path(fs: &mut FsModel, dir: &str)
    requires
        old(fs).wf(),
    ensures
        final(fs).wf(),
        final(fs)@.files == old(fs)@.files,
        final(fs)@.dirs == (if old(fs)@.dirs.contains_key(dir@) {
            old(fs)@.dirs
        } else {
            old(fs)@.dirs.insert(dir@, true)
        }),
{
    if !fs.dir_exists(dir) {
        fs.create_dir(dir, true);
    }
}

/// What a store does, stated over the filesystem before (`pre`) and after
/// (`post`): the store lands on the first writable candidate. An existing
/// file already holding `value` as a full line is returned as is; an
/// existing file without it gains `value` as one appended line; a missing
/// file is created with `value` as its only line, creating its directory
/// when needed. In every successful case the returned content is the
/// landed-on file's full content after the store; when no candidate is
/// writable, nothing changes and the store fails.
pub open spec fn spec_store_ensures(
    pre: FsView,
    post: FsView,
    ds: Seq<Seq<char>>,
    key: Seq<char>,
    value: Seq<char>,
    r: Result<String, DefineError>,
) -> bool {
    match store_target(pre, ds, key) {
        None => {
            &&& post.dirs == pre.dirs
            &&& post.files == pre.files
            &&& r matches Err(e) && e == DefineError::WriteFailure
        },
        Some(i) => {
            let d = ds[i];
            let k = (d, key);
            if pre.files.contains_key(k) {
                let f = pre.files[k];
                if f.lines.contains(value) {
                    &&& post.dirs == pre.dirs
                    &&& post.files == pre.files
                    &&& r matches Ok(c) && c@ == spec_join_lines(f.lines)
                } else {
                    &&& post.dirs == pre.dirs
                    &&& post.files == pre.files.insert(
                        k,
                        (FileView {
                            readable: f.readable,
                            writable: f.writable,
                            lines: f.lines.push(value),
                        }),
                    )
                    &&& r matches Ok(c) && c@ == spec_join_lines(f.lines.push(value))
                }
            } else {
                &&& post.dirs == (if pre.dirs.contains_key(d) {
                    pre.dirs
                } else {
                    pre.dirs.insert(d, true)
                })
                &&& post.files == pre.files.insert(
                    k,
                    (FileView { readable: true, writable: true, lines: seq![value] }),
                )
                &&& r matches Ok(c) && c@ == spec_join_lines(seq![value])
            }
        },
    }
}

/// Try the candidate directories in priority order and store `value` for
/// `key` on the first one that accepts it.
pub fn store_on_appropriate_path(
    fs: &mut FsModel,
    dirs: &Vec<String>,
    key: &str,
    value: &str,
) -> (r: Result<String, DefineError>)
    requires
        old(fs).wf(),
    ensures
        final(fs).wf(),
        spec_store_ensures(old(fs)@, final(fs)@, dirs.deep_view(), key@, value@, r),
{
    let ghost pre = old(fs)@;
    let ghost dv = dirs.deep_view();
    let mut i: usize = 0;
    while i < dirs.len()
        invariant
            i <= dirs@.len(),
            fs.wf(),
            dv == dirs.deep_view(),
            dv.len() == dirs@.len(),
            pre == old(fs)@,
            fs@.dirs == pre.dirs,
            fs@.files == pre.files,
            forall|j: int| 0 <= j < i ==> !candidate_writable(pre, dv[j], key@),
        decreases dirs@.len() - i,
    {
        proof {
            assert(dirs@[i as int]@ == dv[i as int]);
        }
        let d = dirs[i].as_str();
        let ghost k = (dv[i as int], key@);
        if fs.file_exists(d, key) {
            let mut readable = false;
            let mut writable = false;
            let mut present = false;
            {
                let e = fs.get_file(d, key).unwrap();
                readable = e.readable;
                writable = e.writable;
                present = contains_exact_line(&e.lines, value);
            }
            if readable && writable {
                proof {
                    lemma_store_target_of_first(pre, dv, key@, i as int);
                }
                if present {
                    let e = fs.get_file(d, key).unwrap();
                    let c = join_lines(&e.lines);
                    return Ok(c);
                } else {
                    fs.append_line(d, key, value);
                    let e = fs.get_file(d, key).unwrap();
                    let c = join_lines(&e.lines);
                    return Ok(c);
                }
            }
            proof {
                assert(!candidate_writable(pre, dv[i as int], key@));
            }
        } else {
            materialize_path(fs, d);
            if fs.dir_writable(d) {
                proof {
                    lemma_store_target_of_first(pre, dv, key@, i as int);
                }
                let mut first: Vec<String> = Vec::new();
                first.push(String::from_str(value));
                let c = join_lines(&first);
                proof {
                    assert(first.deep_view() =~= seq![value@]);
                }
                fs.add_file(d, key, true, true, first);
                return Ok(c);
            }
            proof {
                assert(fs@.dirs == pre.dirs);
                assert(!candidate_writable(pre, dv[i as int], key@));
            }
        }
        i = i + 1;
    }
    proof {
        lemma_store_target_none(pre, dv, key@);
    }
    Err(DefineError::WriteFailure)
}

/// Delete a key's definition file: remove the highest-priority existing
/// candidate, in its entirety, leaving same-key files at lower-priority
/// locations untouched (they stay discoverable by a later lookup). With no
/// existing candidate at all the delete fails, distinctly from a lookup
/// that found nothing to display.
pub fn delete(fs: &mut FsModel, cfg: &Config, key: &str) -> (r: Result<(), DefineError>)
    requires
        old(fs).wf(),
    ensures
        final(fs).wf(),
        ({
            let rc = spec_read_dirs(old(fs)@, spec_base_dirs(cfg@), key@);
            if rc.len() == 0 {
                &&& final(fs)@.dirs == old(fs)@.dirs
                &&& final(fs)@.files == old(fs)@.files
                &&& r matches Err(e) && e == DefineError::NoDeleteCandidate
            } else {
                &&& final(fs)@.dirs == old(fs)@.dirs
                &&& final(fs)@.files == old(fs)@.files.remove((rc[0], key@))
                &&& r is Ok
            }
        }),
{
    let ghost pre = old(fs)@;
    let dirs = crate::resolver::list_content_paths(cfg);
    let ghost dv = dirs.deep_view();
    let mut i: usize = 0;
    while i < dirs.len()
        invariant
            i <= dirs@.len(),
            fs.wf(),
            dv == dirs.deep_view(),
            dv.len() == dirs@.len(),
            dv == spec_base_dirs(cfg@),
            pre == old(fs)@,
            fs@.dirs == pre.dirs,
            fs@.files == pre.files,
            forall|j: int| 0 <= j < i ==> !fs@.files.contains_key((dv[j], key@)),
        decreases dirs@.len() - i,
    {
        proof {
            assert(dirs@[i as int]@ == dv[i as int]);
        }
        let d = dirs[i].as_str();
        if fs.file_exists(d, key) {
            proof {
                lemma_read_dirs_skip(pre, dv, key@, i as int);
                let t = dv.skip(i as int);
                assert(t[0] == dv[i as int]);
                let rc = spec_read_dirs(pre, dv, key@);
                assert(rc == seq![dv[i as int]] + spec_read_dirs(pre, t.drop_first(), key@));
                assert(rc[0] == dv[i as int]);
            }
            fs.remove_file(d, key);
            return Ok(());
        }
        i = i + 1;
    }
    proof {
        lemma_read_dirs_skip(pre, dv, key@, dv.len() as int);
        assert(dv.skip(dv.len() as int) =~= Seq::<Seq<char>>::empty());
    }
    Err(DefineError::NoDeleteCandidate)
}

/// Store `value` for `key`: resolve the candidate directories and land on
/// the first writable one, deduplicating an exact full-line match.
pub fn store(fs: &mut FsModel, cfg: &Config, key: &str, value: &str) -> (r: Result<
    String,
    DefineError,
>)
    requires
        old(fs).wf(),
    ensures
        final(fs).wf(),
        spec_store_ensures(old(fs)@, final(fs)@, spec_base_dirs(cfg@), key@, value@, r),
{
    let dirs = crate::resolver::list_content_paths(cfg);
    store_on_appropriate_path(fs, &dirs, key, value)
}

} // verus!
