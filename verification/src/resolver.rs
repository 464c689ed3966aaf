//! The path resolver: turns a configuration (an optional override path list,
//! the home directory) and a key into the ordered list of candidate paths,
//! or into the ordered list of base directories alone for catalog scans.

use vstd::prelude::*;

use crate::strutil::{
    join_path, spec_join_path, spec_split_paths, spec_tilde_expand, split_paths, tilde_expand,
};

verus! {

/// What the resolver is configured with, as mathematical values.
pub struct ConfigView {
    /// The override path-list value, when one is set.
    pub override_paths: Option<Seq<char>>,
    /// The current user's home directory, for tilde expansion.
    pub home: Seq<char>,
}

/// The resolver's configuration: the one override value that replaces the
/// built-in base directory list, and the home directory that a leading
/// tilde in a built-in template expands to. Threading this explicitly keeps
/// resolution a pure function of its arguments.
pub struct Config {
    /// The override path-list value, when one is set.
    pub override_paths: Option<String>,
    /// The current user's home directory.
    pub home: String,
}

impl View for Config {
    type V = ConfigView;

    open spec fn view(&self) -> ConfigView {
        ConfigView {
            override_paths: match self.override_paths {
                Some(s) => Some(s@),
                None => None,
            },
            home: self.home@,
        }
    }
}

/// The built-in base directory templates, highest priority first: a
/// home-relative configuration directory, a home-relative dotfile
/// directory, and a system-wide directory.
pub open spec fn spec_default_templates() -> Seq<Seq<char>> {
    seq!["~/.config/define"@, "~/.define"@, "/etc/define"@]
}

/// The built-in base directory templates, highest priority first.
pub fn default_templates() -> (r: Vec<String>)
    ensures
        r.deep_view() == spec_default_templates(),
{
    let mut r: Vec<String> = Vec::new();
    r.push(String::from_str("~/.config/define"));
    r.push(String::from_str("~/.define"));
    r.push(String::from_str("/etc/define"));
    proof {
        assert(r.deep_view() =~= spec_default_templates());
    }
    r
}

/// The ordered base directories a configuration resolves to: the override
/// list split on the platform separator when one is set (used verbatim),
/// otherwise the built-in templates with a leading tilde expanded to home.
pub open spec fn spec_base_dirs(cfg: ConfigView) -> Seq<Seq<char>> {
    match cfg.override_paths {
        Some(o) => spec_split_paths(o),
        None => spec_default_templates().map_values(|t: Seq<char>| spec_tilde_expand(t, cfg.home)),
    }
}

/// The ordered candidate paths for a key: one per base directory, the key
/// appended as the final path segment, base order preserved.
pub open spec fn spec_candidate_paths(cfg: ConfigView, key: Seq<char>) -> Seq<Seq<char>> {
    spec_base_dirs(cfg).map_values(|d: Seq<char>| spec_join_path(d, key))
}

/// Append `key` to every segment of the override path-list value.
pub fn expand_supplied_paths(paths: &str, key: &str) -> (r: Vec<String>)
    ensures
        r.deep_view() == spec_split_paths(paths@).map_values(
            |d: Seq<char>| spec_join_path(d, key@),
        ),
{
    let segs = split_paths(paths);
    let ghost sv = segs.deep_view();
    let mut r: Vec<String> = Vec::new();
    let mut i: usize = 0;
    while i < segs.len()
        invariant
            i <= segs.len(),
            sv == segs.deep_view(),
            r@.len() == i,
            forall|j: int| 0 <= j < i ==> r.deep_view()[j] == spec_join_path(sv[j], key@),
        decreases segs.len() - i,
    {
        let ghost prev = r@;
        let ghost prevdv = r.deep_view();
        r.push(join_path(segs[i].as_str(), key));
        proof {
            assert forall|j: int| 0 <= j < i + 1 implies r.deep_view()[j] == spec_join_path(
                sv[j],
                key@,
            ) by {
                assert(r.deep_view()[j] == r@[j]@);
                if j < i {
                    assert(r@[j] == prev[j]);
                    assert(prevdv[j] == prev[j]@);
                    assert(prevdv[j] == spec_join_path(sv[j], key@));
                }
            }
        }
        i = i + 1;
    }
    proof {
        assert(r.deep_view() =~= sv.map_values(|d: Seq<char>| spec_join_path(d, key@)));
    }
    r
}

/// Split the override path-list value into base directories, verbatim.
pub fn expand_content_paths(paths: &str) -> (r: Vec<String>)
    ensures
        r.deep_view() == spec_split_paths(paths@),
{
    split_paths(paths)
}

/// The built-in base directories, tilde-expanded, with `key` appended.
pub fn expand_default_paths(home: &str, key: &str) -> (r: Vec<String>)
    ensures
        r.deep_view() == spec_default_templates().map_values(
            |t: Seq<char>| spec_join_path(spec_tilde_expand(t, home@), key@),
        ),
{
    let templates = default_templates();
    proof {
        assert(templates@.len() == templates.deep_view().len());
    }
    let mut r: Vec<String> = Vec::new();
    let t0 = tilde_expand(templates[0].as_str(), home);
    r.push(join_path(t0.as_str(), key));
    let t1 = tilde_expand(templates[1].as_str(), home);
    r.push(join_path(t1.as_str(), key));
    let t2 = tilde_expand(templates[2].as_str(), home);
    r.push(join_path(t2.as_str(), key));
    proof {
        assert(r.deep_view() =~= spec_default_templates().map_values(
            |t: Seq<char>| spec_join_path(spec_tilde_expand(t, home@), key@),
        ));
    }
    r
}

/// The built-in base directories, tilde-expanded, with no key appended.
pub fn expand_default_content_paths(home: &str) -> (r: Vec<String>)
    ensures
        r.deep_view() == spec_default_templates().map_values(
            |t: Seq<char>| spec_tilde_expand(t, home@),
        ),
{
    let templates = default_templates();
    proof {
        assert(templates@.len() == templates.deep_view().len());
    }
    let mut r: Vec<String> = Vec::new();
    r.push(tilde_expand(templates[0].as_str(), home));
    r.push(tilde_expand(templates[1].as_str(), home));
    r.push(tilde_expand(templates[2].as_str(), home));
    proof {
        assert(r.deep_view() =~= spec_default_templates().map_values(
            |t: Seq<char>| spec_tilde_expand(t, home@),
        ));
    }
    r
}

/// All candidate paths for `key`, highest priority first.
pub fn gather_candidate_paths(cfg: &Config, key: &str) -> (r: Vec<String>)
    ensures
        r.deep_view() == spec_candidate_paths(cfg@, key@),
{
    let r = match &cfg.override_paths {
        Some(paths) => expand_supplied_paths(paths.as_str(), key),
        None => expand_default_paths(cfg.home.as_str(), key),
    };
    proof {
        assert(r.deep_view() =~= spec_candidate_paths(cfg@, key@));
    }
    r
}

/// The base directories to scan for a catalog listing, highest priority
/// first.
pub fn list_content_paths(cfg: &Config) -> (r: Vec<String>)
    ensures
        r.deep_view() == spec_base_dirs(cfg@),
{
    let r = match &cfg.override_paths {
        Some(paths) => expand_content_paths(paths.as_str()),
        None => expand_default_content_paths(cfg.home.as_str()),
    };
    proof {
        assert(r.deep_view() =~= spec_base_dirs(cfg@));
    }
    r
}

/// The lowercase form of a text: whatever Unicode case folding returns for
/// it, a fixed function of the characters alone.
pub uninterp spec fn lower_of(s: Seq<char>) -> Seq<char>;

/// Relies on str::to_lowercase: the result depends on the characters of the
/// input alone.
#[verifier::external_body]
fn lowercase(s: &str) -> (r: String)
    ensures
        r@ == lower_of(s@),
{
    s.to_lowercase()
}

/// A key under the resolution-time case policy: normalized to lowercase by
/// default, kept as the caller wrote it when `caseful` is set.
pub fn normalize_key(key: &str, caseful: bool) -> (r: String)
    ensures
        caseful ==> r@ == key@,
        !caseful ==> r@ == lower_of(key@),
{
    if caseful {
        String::from_str(key)
    } else {
        lowercase(key)
    }
}

} // verus!
