//! The laws the store keeps, stated over the engine's contracts and proved
//! once and for all: what candidate resolution yields, how repeated stores
//! behave, what a lookup sees after a store or a delete, and that the
//! catalog listing is determined by the set of defined keys alone.

use vstd::prelude::*;

use crate::engine::{
    candidate_writable, lemma_lookup_at_first, lemma_store_target_first,
    lemma_store_target_none, lemma_store_target_of_first, spec_lookup_content,
    spec_lookup_lines, spec_read_dirs, spec_store_ensures, store_target, DefineError,
};
use crate::fs::FsView;
use crate::resolver::{spec_candidate_paths, spec_default_templates, ConfigView};
use crate::strutil::{spec_join_lines, spec_join_path, spec_split_paths, spec_tilde_expand};

verus! {

/// Resolving a key against an override path list yields exactly one
/// candidate per list segment, each the segment with the key appended,
/// order preserved.
pub proof fn lemma_candidates_follow_override(cfg: ConfigView, key: Seq<char>)
    requires
        cfg.override_paths is Some,
    ensures
        ({
            let segs = spec_split_paths(cfg.override_paths->0);
            let cands = spec_candidate_paths(cfg, key);
            &&& cands.len() == segs.len()
            &&& forall|i: int|
                0 <= i < segs.len() ==> cands[i] == spec_join_path(segs[i], key)
        }),
{
}

/// With no override, resolving a key yields exactly three candidates: the
/// built-in templates in priority order, tilde-expanded against the home
/// directory, each with the key appended.
pub proof fn lemma_candidates_default(cfg: ConfigView, key: Seq<char>)
    requires
        cfg.override_paths is None,
    ensures
        ({
            let cands = spec_candidate_paths(cfg, key);
            &&& cands.len() == 3
            &&& forall|i: int|
                0 <= i < 3 ==> cands[i] == spec_join_path(
                    spec_tilde_expand(spec_default_templates()[i], cfg.home),
                    key,
                )
        }),
{
}

/// Membership in a pushed sequence: the old members, plus the new one.
proof fn lemma_push_contains(s: Seq<Seq<char>>, v: Seq<char>, x: Seq<char>)
    ensures
        s.push(v).contains(x) <==> (s.contains(x) || x == v),
{
    let p = s.push(v);
    if p.contains(x) {
        let u = choose|u: int| 0 <= u < p.len() && p[u] == x;
        if u < s.len() {
            assert(s[u] == x);
        }
    }
    if s.contains(x) {
        let u = choose|u: int| 0 <= u < s.len() && s[u] == x;
        assert(p[u] == x);
    }
    if x == v {
        assert(p[s.len() as int] == x);
    }
}

/// After a successful store, the store target of the same key is unchanged,
/// and the landed-on file exists, opens for read and append, and holds the
/// stored value as a full line.
pub proof fn lemma_store_target_stable(
    pre: FsView,
    mid: FsView,
    ds: Seq<Seq<char>>,
    key: Seq<char>,
    value: Seq<char>,
    r: Result<String, DefineError>,
)
    requires
        spec_store_ensures(pre, mid, ds, key, value, r),
        r is Ok,
    ensures
        store_target(pre, ds, key) is Some,
        store_target(mid, ds, key) == store_target(pre, ds, key),
        ({
            let i = store_target(pre, ds, key)->0;
            let k = (ds[i], key);
            &&& mid.files.contains_key(k)
            &&& mid.files[k].readable
            &&& mid.files[k].writable
            &&& mid.files[k].lines.contains(value)
        }),
{
    lemma_store_target_first(pre, ds, key);
    let i = store_target(pre, ds, key)->0;
    let d = ds[i];
    let k = (d, key);
    assert(candidate_writable(pre, d, key));
    if pre.files.contains_key(k) {
        let f = pre.files[k];
        if f.lines.contains(value) {
        } else {
            lemma_push_contains(f.lines, value, value);
        }
    } else {
        assert(seq![value][0] == value);
        assert(seq![value].contains(value));
    }
    assert(mid.files.contains_key(k) && mid.files[k].readable && mid.files[k].writable
        && mid.files[k].lines.contains(value));
    assert forall|j: int| 0 <= j < i implies !candidate_writable(mid, ds[j], key) by {
        assert(!candidate_writable(pre, ds[j], key));
        assert(ds[j] != d);
        assert(mid.files.contains_key((ds[j], key)) == pre.files.contains_key((ds[j], key)));
        if pre.files.contains_key((ds[j], key)) {
            assert(mid.files[(ds[j], key)] == pre.files[(ds[j], key)]);
        } else {
            assert(mid.dirs.contains_key(ds[j]) == pre.dirs.contains_key(ds[j]));
            if pre.dirs.contains_key(ds[j]) {
                assert(mid.dirs[ds[j]] == pre.dirs[ds[j]]);
            }
        }
    }
    assert(candidate_writable(mid, d, key));
    lemma_store_target_of_first(mid, ds, key, i);
}

/// Storing the same value twice for the same key is idempotent: across
/// both calls the landed-on file gains the value as one line only where it
/// was missing, the second store changes no file and no directory, it
/// succeeds exactly when the first did, and both calls return identical
/// content.
pub proof fn lemma_store_idempotent(
    pre: FsView,
    mid: FsView,
    post: FsView,
    ds: Seq<Seq<char>>,
    key: Seq<char>,
    value: Seq<char>,
    r1: Result<String, DefineError>,
    r2: Result<String, DefineError>,
)
    requires
        spec_store_ensures(pre, mid, ds, key, value, r1),
        spec_store_ensures(mid, post, ds, key, value, r2),
    ensures
        post.dirs == mid.dirs,
        post.files == mid.files,
        r1 is Ok <==> r2 is Ok,
        r1 is Ok ==> r1->Ok_0@ == r2->Ok_0@,
        r1 is Ok ==> ({
            let i = store_target(pre, ds, key)->0;
            let k = (ds[i], key);
            let base = if pre.files.contains_key(k) {
                pre.files[k].lines
            } else {
                Seq::<Seq<char>>::empty()
            };
            post.files[k].lines == (if base.contains(value) {
                base
            } else {
                base.push(value)
            })
        }),
{
    match store_target(pre, ds, key) {
        None => {
            lemma_store_target_first(pre, ds, key);
            assert forall|j: int| 0 <= j < ds.len() implies !candidate_writable(
                mid,
                ds[j],
                key,
            ) by {
                assert(!candidate_writable(pre, ds[j], key));
            }
            lemma_store_target_none(mid, ds, key);
        },
        Some(i) => {
            lemma_store_target_stable(pre, mid, ds, key, value, r1);
            let k = (ds[i], key);
            assert(mid.files[k].lines.contains(value));
            assert(store_target(mid, ds, key) == Some(i));
        },
    }
}

/// Storing two distinct values for the same key, neither already present,
/// appends both as separate lines, in insertion order, to the same file.
pub proof fn lemma_store_distinct_values_append(
    pre: FsView,
    mid: FsView,
    post: FsView,
    ds: Seq<Seq<char>>,
    key: Seq<char>,
    v1: Seq<char>,
    v2: Seq<char>,
    r1: Result<String, DefineError>,
    r2: Result<String, DefineError>,
)
    requires
        spec_store_ensures(pre, mid, ds, key, v1, r1),
        spec_store_ensures(mid, post, ds, key, v2, r2),
        r1 is Ok,
        v1 != v2,
        ({
            let i = store_target(pre, ds, key)->0;
            let k = (ds[i], key);
            pre.files.contains_key(k) ==> !pre.files[k].lines.contains(v1)
                && !pre.files[k].lines.contains(v2)
        }),
    ensures
        ({
            let i = store_target(pre, ds, key)->0;
            let k = (ds[i], key);
            let base = if pre.files.contains_key(k) {
                pre.files[k].lines
            } else {
                Seq::<Seq<char>>::empty()
            };
            &&& post.files.contains_key(k)
            &&& post.files[k].lines == base.push(v1).push(v2)
            &&& r2 matches Ok(c) && c@ == spec_join_lines(base.push(v1).push(v2))
        }),
{
    lemma_store_target_stable(pre, mid, ds, key, v1, r1);
    let i = store_target(pre, ds, key)->0;
    let k = (ds[i], key);
    let base = if pre.files.contains_key(k) {
        pre.files[k].lines
    } else {
        Seq::<Seq<char>>::empty()
    };
    if pre.files.contains_key(k) {
        assert(mid.files[k].lines == base.push(v1));
    } else {
        assert(mid.files[k].lines =~= base.push(v1));
    }
    lemma_push_contains(base, v1, v2);
    assert(!base.push(v1).contains(v2));
    assert(store_target(mid, ds, key) == Some(i));
}

/// After a successful store with no readable same-key file above the store
/// target, a lookup for the key returns exactly the content the store
/// returned, and that content holds the stored value as one of its lines.
pub proof fn lemma_lookup_after_store(
    pre: FsView,
    post: FsView,
    ds: Seq<Seq<char>>,
    key: Seq<char>,
    value: Seq<char>,
    r: Result<String, DefineError>,
)
    requires
        spec_store_ensures(pre, post, ds, key, value, r),
        r is Ok,
        forall|j: int|
            0 <= j < store_target(pre, ds, key)->0 ==> !(pre.files.contains_key((ds[j], key))
                && pre.files[(ds[j], key)].readable),
    ensures
        r matches Ok(c) && spec_lookup_content(post, ds, key) == Some(c@),
        spec_lookup_lines(post, ds, key) is Some,
        spec_lookup_lines(post, ds, key)->0.contains(value),
{
    lemma_store_target_first(pre, ds, key);
    lemma_store_target_stable(pre, post, ds, key, value, r);
    let i = store_target(pre, ds, key)->0;
    let d = ds[i];
    let k = (d, key);
    assert forall|j: int|
        0 <= j < i implies !(post.files.contains_key((ds[j], key)) && post.files[
        (ds[j], key)
    ].readable) by {
        assert(!candidate_writable(pre, ds[j], key));
        assert(candidate_writable(pre, d, key));
        assert(ds[j] != d);
        assert(post.files.contains_key((ds[j], key)) == pre.files.contains_key((ds[j], key)));
        if pre.files.contains_key((ds[j], key)) {
            assert(post.files[(ds[j], key)] == pre.files[(ds[j], key)]);
        }
    }
    lemma_lookup_at_first(post, ds, key, i);
}

/// The position of the first existing candidate, and that nothing before
/// it exists.
proof fn lemma_read_dirs_first(fsv: FsView, ds: Seq<Seq<char>>, key: Seq<char>) -> (i0: int)
    requires
        spec_read_dirs(fsv, ds, key).len() >= 1,
    ensures
        0 <= i0 < ds.len(),
        ds[i0] == spec_read_dirs(fsv, ds, key)[0],
        fsv.files.contains_key((ds[i0], key)),
        forall|j: int| 0 <= j < i0 ==> !fsv.files.contains_key((ds[j], key)),
    decreases ds.len(),
{
    if fsv.files.contains_key((ds[0], key)) {
        assert(spec_read_dirs(fsv, ds, key) == seq![ds[0]] + spec_read_dirs(
            fsv,
            ds.drop_first(),
            key,
        ));
        0
    } else {
        let t = lemma_read_dirs_first(fsv, ds.drop_first(), key);
        assert(ds.drop_first()[t] == ds[t + 1]);
        assert forall|j: int| 0 <= j < t + 1 implies !fsv.files.contains_key((ds[j], key)) by {
            if j > 0 {
                assert(ds.drop_first()[j - 1] == ds[j]);
            }
        }
        t + 1
    }
}

/// The positions of the first two existing candidates, and that no
/// candidate before or between them exists.
proof fn lemma_read_dirs_first_two(fsv: FsView, ds: Seq<Seq<char>>, key: Seq<char>) -> (r: (
    int,
    int,
))
    requires
        spec_read_dirs(fsv, ds, key).len() >= 2,
    ensures
        0 <= r.0 < r.1 < ds.len(),
        ds[r.0] == spec_read_dirs(fsv, ds, key)[0],
        ds[r.1] == spec_read_dirs(fsv, ds, key)[1],
        fsv.files.contains_key((ds[r.0], key)),
        fsv.files.contains_key((ds[r.1], key)),
        forall|j: int| 0 <= j < r.0 ==> !fsv.files.contains_key((ds[j], key)),
        forall|j: int| r.0 < j < r.1 ==> !fsv.files.contains_key((ds[j], key)),
    decreases ds.len(),
{
    let rc = spec_read_dirs(fsv, ds, key);
    if fsv.files.contains_key((ds[0], key)) {
        let rest = spec_read_dirs(fsv, ds.drop_first(), key);
        assert(rc == seq![ds[0]] + rest);
        assert(rc[1] == rest[0]);
        let t = lemma_read_dirs_first(fsv, ds.drop_first(), key);
        assert(ds.drop_first()[t] == ds[t + 1]);
        assert forall|j: int| 0 < j < t + 1 implies !fsv.files.contains_key((ds[j], key)) by {
            assert(ds.drop_first()[j - 1] == ds[j]);
        }
        (0int, t + 1)
    } else {
        let (a, b) = lemma_read_dirs_first_two(fsv, ds.drop_first(), key);
        assert(ds.drop_first()[a] == ds[a + 1]);
        assert(ds.drop_first()[b] == ds[b + 1]);
        assert forall|j: int| 0 <= j < a + 1 implies !fsv.files.contains_key((ds[j], key)) by {
            if j > 0 {
                assert(ds.drop_first()[j - 1] == ds[j]);
            }
        }
        assert forall|j: int| a + 1 < j < b + 1 implies !fsv.files.contains_key((ds[j], key)) by {
            assert(ds.drop_first()[j - 1] == ds[j]);
        }
        (a + 1, b + 1)
    }
}

/// A delete removes only the highest-priority existing candidate: when a
/// second, lower-priority readable file for the key exists in a different
/// directory, a lookup performed after the delete still finds it and
/// returns its content unchanged.
pub proof fn lemma_lookup_after_delete(
    pre: FsView,
    post: FsView,
    ds: Seq<Seq<char>>,
    key: Seq<char>,
)
    requires
        spec_read_dirs(pre, ds, key).len() >= 2,
        spec_read_dirs(pre, ds, key)[0] != spec_read_dirs(pre, ds, key)[1],
        post.dirs == pre.dirs,
        post.files == pre.files.remove((spec_read_dirs(pre, ds, key)[0], key)),
        pre.files[(spec_read_dirs(pre, ds, key)[1], key)].readable,
    ensures
        spec_lookup_content(post, ds, key) == Some(
            spec_join_lines(pre.files[(spec_read_dirs(pre, ds, key)[1], key)].lines),
        ),
{
    let rc = spec_read_dirs(pre, ds, key);
    let (i0, i1) = lemma_read_dirs_first_two(pre, ds, key);
    assert forall|j: int|
        0 <= j < i1 implies !(post.files.contains_key((ds[j], key)) && post.files[
        (ds[j], key)
    ].readable) by {
        if j < i0 {
            assert(!pre.files.contains_key((ds[j], key)));
        } else if j == i0 {
            assert(!post.files.contains_key((ds[j], key)));
        } else {
            assert(!pre.files.contains_key((ds[j], key)));
        }
    }
    assert((ds[i1], key) != (ds[i0], key));
    assert(post.files.contains_key((ds[i1], key)));
    assert(post.files[(ds[i1], key)] == pre.files[(ds[i1], key)]);
    lemma_lookup_at_first(post, ds, key, i1);
}

/// The catalog listing is a pure function of the set of defined keys: any
/// two sorted duplicate-free listings of the same key set are the same
/// sequence, whatever order the directories were scanned in.
pub proof fn lemma_listing_deterministic(
    r1: Seq<Seq<char>>,
    r2: Seq<Seq<char>>,
    keys: Set<Seq<char>>,
)
    requires
        crate::strutil::strictly_sorted(r1),
        crate::strutil::strictly_sorted(r2),
        forall|n: Seq<char>| r1.contains(n) <==> keys.contains(n),
        forall|n: Seq<char>| r2.contains(n) <==> keys.contains(n),
    ensures
        r1 == r2,
{
    crate::strutil::lemma_strictly_sorted_same_elements_equal(r1, r2);
}

} // verus!
