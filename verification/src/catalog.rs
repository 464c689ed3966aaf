//! The catalog aggregator: scan every existing base directory, collect the
//! distinct keys defined anywhere, and hand them out in sorted order.

use vstd::prelude::*;

use crate::engine::{lookup_content, spec_lookup_content, DefineError};
use crate::fs::{FsModel, FsView};
use crate::resolver::{list_content_paths, spec_base_dirs, Config};
use crate::strutil::{insert_sorted_unique, strictly_sorted};

verus! {

/// The keys defined anywhere: entry names of regular files directly inside
/// an existing base directory.
pub open spec fn catalog_keys(fsv: FsView, ds: Seq<Seq<char>>) -> Set<Seq<char>> {
    Set::new(
        |n: Seq<char>|
            exists|i: int|
                0 <= i < ds.len() && fsv.dirs.contains_key(ds[i]) && fsv.files.contains_key(
                    (ds[i], n),
                ),
    )
}

/// All distinct keys across the existing base directories, each once, in
/// lexicographic order. A base directory that does not exist contributes no
/// entries and does not abort the listing.
pub fn process_everything(fs: &FsModel, cfg: &Config) -> (r: Vec<String>)
    requires
        fs.wf(),
    ensures
        strictly_sorted(r.deep_view()),
        forall|n: Seq<char>|
            r.deep_view().contains(n) <==> catalog_keys(fs@, spec_base_dirs(cfg@)).contains(n),
{
    let dirs = list_content_paths(cfg);
    let ghost dv = dirs.deep_view();
    let mut keys: Vec<String> = Vec::new();
    let mut i: usize = 0;
    while i < dirs.len()
        invariant
            i <= dirs@.len(),
            fs.wf(),
            dv == dirs.deep_view(),
            dv.len() == dirs@.len(),
            strictly_sorted(keys.deep_view()),
            forall|n: Seq<char>|
                keys.deep_view().contains(n) <==> exists|w: int|
                    0 <= w < i && fs@.dirs.contains_key(dv[w]) && fs@.files.contains_key(
                        (dv[w], n),
                    ),
        decreases dirs@.len() - i,
    {
        proof {
            assert(dirs@[i as int]@ == dv[i as int]);
        }
        let d = dirs[i].as_str();
        if fs.dir_exists(d) {
            let names = fs.list_names_in(d);
            let ghost nv = names.deep_view();
            let mut j: usize = 0;
            while j < names.len()
                invariant
                    j <= names@.len(),
                    i < dv.len(),
                    fs.wf(),
                    nv == names.deep_view(),
                    nv.len() == names@.len(),
                    d@ == dv[i as int],
                    fs@.dirs.contains_key(dv[i as int]),
                    forall|n: Seq<char>|
                        nv.contains(n) <==> fs@.files.contains_key((dv[i as int], n)),
                    strictly_sorted(keys.deep_view()),
                    forall|n: Seq<char>|
                        keys.deep_view().contains(n) <==> ((exists|w: int|
                            0 <= w < i && fs@.dirs.contains_key(dv[w]) && fs@.files.contains_key(
                                (dv[w], n),
                            )) || nv.take(j as int).contains(n)),
                decreases names@.len() - j,
            {
                proof {
                    assert(names@[j as int]@ == nv[j as int]);
                }
                insert_sorted_unique(&mut keys, names[j].clone());
                proof {
                    let t1 = nv.take(j + 1);
                    let t0 = nv.take(j as int);
                    assert forall|n: Seq<char>| #[trigger]
                        t1.contains(n) <==> (t0.contains(n) || n == nv[j as int]) by {
                        if t1.contains(n) {
                            let u = choose|u: int| 0 <= u < t1.len() && t1[u] == n;
                            if u < j {
                                assert(t0[u] == n);
                                assert(t0.contains(n));
                            } else {
                                assert(n == nv[j as int]);
                            }
                        }
                        if t0.contains(n) {
                            let u = choose|u: int| 0 <= u < t0.len() && t0[u] == n;
                            assert(t1[u] == n);
                        }
                        if n == nv[j as int] {
                            assert(t1[j as int] == n);
                        }
                    }
                }
                j = j + 1;
            }
            proof {
                assert(nv.take(names@.len() as int) =~= nv);
                assert forall|n: Seq<char>|
                    keys.deep_view().contains(n) <==> exists|w: int|
                        0 <= w < i + 1 && fs@.dirs.contains_key(dv[w]) && fs@.files.contains_key(
                            (dv[w], n),
                        ) by {
                    if keys.deep_view().contains(n) {
                        if nv.contains(n) {
                            assert(fs@.files.contains_key((dv[i as int], n)));
                        }
                    }
                    if exists|w: int|
                        0 <= w < i + 1 && fs@.dirs.contains_key(dv[w]) && fs@.files.contains_key(
                            (dv[w], n),
                        ) {
                        let w = choose|w: int|
                            0 <= w < i + 1 && fs@.dirs.contains_key(dv[w])
                                && fs@.files.contains_key((dv[w], n));
                        if w == i {
                            assert(nv.contains(n));
                            let u = choose|u: int| 0 <= u < nv.len() && nv[u] == n;
                            assert(0 <= u < nv.len() && nv[u] == n);
                        }
                    }
                }
            }
        } else {
            proof {
                assert forall|n: Seq<char>|
                    keys.deep_view().contains(n) <==> exists|w: int|
                        0 <= w < i + 1 && fs@.dirs.contains_key(dv[w]) && fs@.files.contains_key(
                            (dv[w], n),
                        ) by {
                    if exists|w: int|
                        0 <= w < i + 1 && fs@.dirs.contains_key(dv[w]) && fs@.files.contains_key(
                            (dv[w], n),
                        ) {
                        let w = choose|w: int|
                            0 <= w < i + 1 && fs@.dirs.contains_key(dv[w])
                                && fs@.files.contains_key((dv[w], n));
                        assert(w < i);
                    }
                }
            }
        }
        i = i + 1;
    }
    proof {
        r_final_proof(fs@, dv, keys.deep_view());
    }
    keys
}

/// At the end of the scan, membership over all directories is membership in
/// the catalog key set.
proof fn r_final_proof(fsv: FsView, dv: Seq<Seq<char>>, kv: Seq<Seq<char>>)
    requires
        forall|n: Seq<char>|
            kv.contains(n) <==> exists|w: int|
                0 <= w < dv.len() && fsv.dirs.contains_key(dv[w]) && fsv.files.contains_key(
                    (dv[w], n),
                ),
    ensures
        forall|n: Seq<char>| kv.contains(n) <==> catalog_keys(fsv, dv).contains(n),
{
}

/// Every defined key in sorted order, paired with the content its lookup
/// returns. A key whose definition cannot be read aborts the listing with
/// `NotFound`.
pub fn list_everything(fs: &FsModel, cfg: &Config) -> (r: Result<Vec<(String, String)>, DefineError>)
    requires
        fs.wf(),
    ensures
        ({
            let ds = spec_base_dirs(cfg@);
            match r {
                Ok(v) => {
                    let ks = Seq::new(v@.len(), |i: int| v@[i].0@);
                    &&& strictly_sorted(ks)
                    &&& forall|n: Seq<char>| ks.contains(n) <==> catalog_keys(fs@, ds).contains(n)
                    &&& forall|i: int|
                        0 <= i < v@.len() ==> spec_lookup_content(fs@, ds, v@[i].0@) == Some(
                            v@[i].1@,
                        )
                },
                Err(e) => {
                    &&& e == DefineError::NotFound
                    &&& exists|n: Seq<char>|
                        catalog_keys(fs@, ds).contains(n) && spec_lookup_content(fs@, ds, n)
                            is None
                },
            }
        }),
{
    let keys = process_everything(fs, cfg);
    let ghost kv = keys.deep_view();
    let mut out: Vec<(String, String)> = Vec::new();
    let mut i: usize = 0;
    while i < keys.len()
        invariant
            i <= keys@.len(),
            fs.wf(),
            kv == keys.deep_view(),
            kv.len() == keys@.len(),
            strictly_sorted(kv),
            forall|n: Seq<char>|
                kv.contains(n) <==> catalog_keys(fs@, spec_base_dirs(cfg@)).contains(n),
            out@.len() == i,
            forall|j: int| 0 <= j < i ==> out@[j].0@ == kv[j],
            forall|j: int|
                0 <= j < i ==> spec_lookup_content(fs@, spec_base_dirs(cfg@), kv[j]) == Some(
                    out@[j].1@,
                ),
        decreases keys@.len() - i,
    {
        proof {
            assert(keys@[i as int]@ == kv[i as int]);
        }
        match lookup_content(fs, cfg, keys[i].as_str()) {
            Some(content) => {
                out.push((keys[i].clone(), content));
            },
            None => {
                proof {
                    assert(kv.contains(kv[i as int]));
                }
                return Err(DefineError::NotFound);
            },
        }
        i = i + 1;
    }
    proof {
        let ks = Seq::new(out@.len(), |j: int| out@[j].0@);
        assert(ks =~= kv);
        assert forall|j: int|
            0 <= j < out@.len() implies spec_lookup_content(fs@, spec_base_dirs(cfg@), out@[j].0@)
            == Some(out@[j].1@) by {
            assert(out@[j].0@ == kv[j]);
            assert(spec_lookup_content(fs@, spec_base_dirs(cfg@), kv[j]) == Some(out@[j].1@));
        }
    }
    Ok(out)
}

} // verus!
