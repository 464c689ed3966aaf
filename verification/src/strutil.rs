//! String helpers shared by the resolver, the storage engine and the catalog:
//! path joining, path-list splitting, tilde expansion, line handling and a
//! lexicographic order on strings.

use vstd::prelude::*;

verus! {

/// A base directory joined with an entry name: `dir`, a separator, `name`.
pub open spec fn spec_join_path(dir: Seq<char>, name: Seq<char>) -> Seq<char> {
    dir + seq!['/'] + name
}

/// Build `dir + "/" + name`.
pub fn join_path(dir: &str, name: &str) -> (r: String)
    ensures
        r@ == spec_join_path(dir@, name@),
{
    proof {
        reveal_strlit("/");
    }
    let mut r = String::from_str(dir);
    r.append("/");
    r.append(name);
    proof {
        assert(r@ =~= spec_join_path(dir@, name@));
    }
    r
}

/// Segments of `s` up to the next separator, with `cur` the partial segment
/// read so far: the splitting rule of a platform path list, which keeps
/// empty segments (`"a::b"` has three) and yields one empty segment for `""`.
pub open spec fn split_list_acc(s: Seq<char>, cur: Seq<char>) -> Seq<Seq<char>>
    decreases s.len(),
{
    if s.len() == 0 {
        seq![cur]
    } else if s[0] == ':' {
        seq![cur] + split_list_acc(s.drop_first(), Seq::empty())
    } else {
        split_list_acc(s.drop_first(), cur.push(s[0]))
    }
}

/// `s` split on the platform path-list separator `':'`.
pub open spec fn spec_split_paths(s: Seq<char>) -> Seq<Seq<char>> {
    split_list_acc(s, Seq::empty())
}

/// Split a path-list value on `':'`, keeping empty segments.
pub fn split_paths(s: &str) -> (r: Vec<String>)
    ensures
        r.deep_view() == spec_split_paths(s@),
{
    let n = s.unicode_len();
    let mut r: Vec<String> = Vec::new();
    let mut start: usize = 0;
    let mut i: usize = 0;
    proof {
        assert(s@.skip(0) =~= s@);
        assert(s@.subrange(0, 0) =~= Seq::<char>::empty());
        assert(r.deep_view() + split_list_acc(s@, Seq::empty()) =~= split_list_acc(
            s@,
            Seq::empty(),
        ));
    }
    while i < n
        invariant
            start <= i <= n,
            n == s@.len(),
            spec_split_paths(s@) == r.deep_view() + split_list_acc(
                s@.skip(i as int),
                s@.subrange(start as int, i as int),
            ),
        decreases n - i,
    {
        let c = s.get_char(i);
        proof {
            assert(s@.skip(i as int)[0] == c);
            assert(s@.skip(i as int).drop_first() =~= s@.skip(i + 1));
        }
        if c == ':' {
            let seg = s.substring_char(start, i);
            r.push(String::from_str(seg));
            start = i + 1;
            proof {
                assert(s@.subrange(start as int, i + 1) =~= Seq::<char>::empty());
            }
        } else {
            proof {
                assert(s@.subrange(start as int, i + 1) =~= s@.subrange(
                    start as int,
                    i as int,
                ).push(c));
            }
        }
        i = i + 1;
    }
    proof {
        assert(s@.skip(n as int) =~= Seq::<char>::empty());
    }
    let seg = s.substring_char(start, n);
    r.push(String::from_str(seg));
    proof {
        assert(r.deep_view() =~= spec_split_paths(s@));
    }
    r
}

/// A leading home-reference token expanded: `"~"` alone becomes `home`, a
/// path under `"~/"` is re-rooted at `home`, and anything else is untouched.
pub open spec fn spec_tilde_expand(p: Seq<char>, home: Seq<char>) -> Seq<char> {
    if p.len() > 0 && p[0] == '~' && (p.len() == 1 || p[1] == '/') {
        home + p.drop_first()
    } else {
        p
    }
}

/// Expand a leading `~` to `home`.
pub fn tilde_expand(p: &str, home: &str) -> (r: String)
    ensures
        r@ == spec_tilde_expand(p@, home@),
{
    let n = p.unicode_len();
    if n > 0 && p.get_char(0) == '~' && (n == 1 || p.get_char(1) == '/') {
        let rest = p.substring_char(1, n);
        proof {
            assert(rest@ =~= p@.drop_first());
        }
        let mut r = String::from_str(home);
        r.append(rest);
        r
    } else {
        String::from_str(p)
    }
}

/// `a` comes strictly before `b` in lexicographic order on characters, which
/// for UTF-8 text coincides with byte order: shorter prefixes come first,
/// and the first differing character decides by code point.
pub open spec fn spec_str_lt(a: Seq<char>, b: Seq<char>) -> bool
    decreases a.len(),
{
    if b.len() == 0 {
        false
    } else if a.len() == 0 {
        true
    } else if a[0] != b[0] {
        (a[0] as u32) < (b[0] as u32)
    } else {
        spec_str_lt(a.drop_first(), b.drop_first())
    }
}

/// Distinct characters have distinct code points.
pub proof fn lemma_char_code_injective(c1: char, c2: char)
    requires
        c1 != c2,
    ensures
        (c1 as u32) != (c2 as u32),
{
    vstd::utf8::char_u32_cast(c1, c1 as u32);
    vstd::utf8::char_u32_cast(c2, c2 as u32);
}

/// The order is irreflexive.
pub proof fn lemma_str_lt_irreflexive(a: Seq<char>)
    ensures
        !spec_str_lt(a, a),
    decreases a.len(),
{
    if a.len() > 0 {
        lemma_str_lt_irreflexive(a.drop_first());
    }
}

/// Any two strings are ordered one way, the other way, or equal.
pub proof fn lemma_str_lt_total(a: Seq<char>, b: Seq<char>)
    ensures
        spec_str_lt(a, b) || spec_str_lt(b, a) || a == b,
    decreases a.len(),
{
    if a.len() == 0 && b.len() == 0 {
        assert(a =~= b);
    }
    if a.len() > 0 && b.len() > 0 && a[0] != b[0] {
        lemma_char_code_injective(a[0], b[0]);
    }
    if a.len() > 0 && b.len() > 0 && a[0] == b[0] {
        lemma_str_lt_total(a.drop_first(), b.drop_first());
        if a.drop_first() == b.drop_first() {
            assert(a.len() - 1 == a.drop_first().len());
            assert(b.len() - 1 == b.drop_first().len());
            assert(a.len() == b.len());
            assert forall|i: int| 0 <= i < a.len() implies a[i] == b[i] by {
                if i > 0 {
                    assert(a[i] == a.drop_first()[i - 1]);
                    assert(b[i] == b.drop_first()[i - 1]);
                }
            }
            assert(a =~= b);
        }
    }
}

/// The order is transitive.
pub proof fn lemma_str_lt_transitive(a: Seq<char>, b: Seq<char>, c: Seq<char>)
    requires
        spec_str_lt(a, b),
        spec_str_lt(b, c),
    ensures
        spec_str_lt(a, c),
    decreases a.len() + b.len() + c.len(),
{
    if a.len() > 0 && b.len() > 0 && c.len() > 0 && a[0] == b[0] && b[0] == c[0] {
        lemma_str_lt_transitive(a.drop_first(), b.drop_first(), c.drop_first());
    }
}

/// Compare two strings in the order of `spec_str_lt`.
pub fn str_lt(a: &str, b: &str) -> (r: bool)
    ensures
        r == spec_str_lt(a@, b@),
{
    let an = a.unicode_len();
    let bn = b.unicode_len();
    let mut i: usize = 0;
    proof {
        assert(a@.skip(0) =~= a@);
        assert(b@.skip(0) =~= b@);
    }
    loop
        invariant
            i <= an,
            i <= bn,
            an == a@.len(),
            bn == b@.len(),
            spec_str_lt(a@, b@) == spec_str_lt(a@.skip(i as int), b@.skip(i as int)),
        decreases an - i,
    {
        if i == an || i == bn {
            proof {
                if i == an {
                    assert(a@.skip(i as int) =~= Seq::<char>::empty());
                }
                if i == bn {
                    assert(b@.skip(i as int) =~= Seq::<char>::empty());
                }
            }
            return an < bn;
        }
        let ca = a.get_char(i);
        let cb = b.get_char(i);
        proof {
            assert(a@.skip(i as int)[0] == ca);
            assert(b@.skip(i as int)[0] == cb);
            assert(a@.skip(i as int).drop_first() =~= a@.skip(i + 1));
            assert(b@.skip(i as int).drop_first() =~= b@.skip(i + 1));
        }
        if ca != cb {
            return (ca as u32) < (cb as u32);
        }
        i = i + 1;
    }
}

/// The text of a definition file whose entries are `lines`: every line is
/// newline-terminated.
pub open spec fn spec_join_lines(lines: Seq<Seq<char>>) -> Seq<char>
    decreases lines.len(),
{
    if lines.len() == 0 {
        Seq::empty()
    } else {
        lines[0] + seq!['\n'] + spec_join_lines(lines.drop_first())
    }
}

/// Render a sequence of entries as file content, one newline-terminated
/// entry per line.
pub fn join_lines(lines: &Vec<String>) -> (r: String)
    ensures
        r@ == spec_join_lines(lines.deep_view()),
{
    proof {
        reveal_strlit("\n");
    }
    let ghost lsv = lines.deep_view();
    let mut r = String::new();
    let mut i: usize = 0;
    proof {
        assert(lsv.skip(0) =~= lsv);
        assert(r@ + spec_join_lines(lsv) =~= spec_join_lines(lsv));
    }
    while i < lines.len()
        invariant
            i <= lines.len(),
            lsv == lines.deep_view(),
            spec_join_lines(lsv) == r@ + spec_join_lines(lsv.skip(i as int)),
        decreases lines.len() - i,
    {
        proof {
            assert(lsv.skip(i as int)[0] == lsv[i as int]);
            assert(lsv.skip(i as int).drop_first() =~= lsv.skip(i + 1));
        }
        let ghost old_r = r@;
        r.append(lines[i].as_str());
        r.append("\n");
        proof {
            reveal_strlit("\n");
            assert("\n"@ =~= seq!['\n']);
            assert(r@ =~= old_r + lsv[i as int] + seq!['\n']);
            assert(old_r + (lsv[i as int] + seq!['\n'] + spec_join_lines(lsv.skip(i + 1))) =~= r@
                + spec_join_lines(lsv.skip(i + 1)));
        }
        i = i + 1;
    }
    proof {
        assert(lsv.skip(lines.len() as int) =~= Seq::<Seq<char>>::empty());
    }
    r
}

/// A line as `str::lines` yields it: a trailing carriage return is dropped
/// when the line was ended by a newline.
pub open spec fn strip_trailing_cr(l: Seq<char>) -> Seq<char> {
    if l.len() > 0 && l.last() == '\r' {
        l.drop_last()
    } else {
        l
    }
}

/// The lines of `s` up to the next newline, with `cur` the partial line read
/// so far: lines end at `'\n'` (a `'\r'` right before it is dropped), and a
/// final fragment counts only if it is non-empty.
pub open spec fn lines_acc(s: Seq<char>, cur: Seq<char>) -> Seq<Seq<char>>
    decreases s.len(),
{
    if s.len() == 0 {
        if cur.len() == 0 {
            Seq::empty()
        } else {
            seq![cur]
        }
    } else if s[0] == '\n' {
        seq![strip_trailing_cr(cur)] + lines_acc(s.drop_first(), Seq::empty())
    } else {
        lines_acc(s.drop_first(), cur.push(s[0]))
    }
}

/// The lines of `s`, as `str::lines` yields them.
pub open spec fn spec_lines(s: Seq<char>) -> Seq<Seq<char>> {
    lines_acc(s, Seq::empty())
}

/// Split text into lines: lines end at `'\n'` or `"\r\n"`, and the final
/// line needs no terminator.
pub fn split_lines(s: &str) -> (r: Vec<String>)
    ensures
        r.deep_view() == spec_lines(s@),
{
    let n = s.unicode_len();
    let mut r: Vec<String> = Vec::new();
    let mut start: usize = 0;
    let mut i: usize = 0;
    proof {
        assert(s@.skip(0) =~= s@);
        assert(s@.subrange(0, 0) =~= Seq::<char>::empty());
        assert(r.deep_view() + lines_acc(s@, Seq::empty()) =~= lines_acc(s@, Seq::empty()));
    }
    while i < n
        invariant
            start <= i <= n,
            n == s@.len(),
            spec_lines(s@) == r.deep_view() + lines_acc(
                s@.skip(i as int),
                s@.subrange(start as int, i as int),
            ),
        decreases n - i,
    {
        let c = s.get_char(i);
        proof {
            assert(s@.skip(i as int)[0] == c);
            assert(s@.skip(i as int).drop_first() =~= s@.skip(i + 1));
        }
        if c == '\n' {
            let end = if i > start && s.get_char(i - 1) == '\r' {
                i - 1
            } else {
                i
            };
            let line = s.substring_char(start, end);
            proof {
                assert(line@ =~= strip_trailing_cr(s@.subrange(start as int, i as int)));
            }
            r.push(String::from_str(line));
            start = i + 1;
            proof {
                assert(s@.subrange(start as int, i + 1) =~= Seq::<char>::empty());
            }
        } else {
            proof {
                assert(s@.subrange(start as int, i + 1) =~= s@.subrange(
                    start as int,
                    i as int,
                ).push(c));
            }
        }
        i = i + 1;
    }
    proof {
        assert(s@.skip(n as int) =~= Seq::<char>::empty());
    }
    if start < n {
        let line = s.substring_char(start, n);
        r.push(String::from_str(line));
    }
    proof {
        if start < n {
        } else {
            assert(s@.subrange(start as int, n as int) =~= Seq::<char>::empty());
        }
        assert(r.deep_view() =~= spec_lines(s@));
    }
    r
}

/// The characters with the Unicode `White_Space` property, the set that
/// `str::trim` removes at either end.
pub open spec fn spec_is_whitespace(c: char) -> bool {
    ||| c == ' '
    ||| c == '\t'
    ||| c == '\n'
    ||| c == '\u{b}'
    ||| c == '\u{c}'
    ||| c == '\r'
    ||| c == '\u{85}'
    ||| c == '\u{a0}'
    ||| c == '\u{1680}'
    ||| (0x2000 <= (c as u32) && (c as u32) <= 0x200a)
    ||| c == '\u{2028}'
    ||| c == '\u{2029}'
    ||| c == '\u{202f}'
    ||| c == '\u{205f}'
    ||| c == '\u{3000}'
}

/// Whether `c` is Unicode whitespace.
pub fn is_whitespace(c: char) -> (r: bool)
    ensures
        r == spec_is_whitespace(c),
{
    c == ' ' || c == '\t' || c == '\n' || c == '\u{b}' || c == '\u{c}' || c == '\r' || c == '\u{85}'
        || c == '\u{a0}' || c == '\u{1680}' || (0x2000 <= (c as u32) && (c as u32) <= 0x200a) || c
        == '\u{2028}' || c == '\u{2029}' || c == '\u{202f}' || c == '\u{205f}' || c == '\u{3000}'
}

/// `s` without leading whitespace.
pub open spec fn spec_trim_start(s: Seq<char>) -> Seq<char>
    decreases s.len(),
{
    if s.len() > 0 && spec_is_whitespace(s[0]) {
        spec_trim_start(s.drop_first())
    } else {
        s
    }
}

/// `s` without trailing whitespace.
pub open spec fn spec_trim_end(s: Seq<char>) -> Seq<char>
    decreases s.len(),
{
    if s.len() > 0 && spec_is_whitespace(s.last()) {
        spec_trim_end(s.drop_last())
    } else {
        s
    }
}

/// `s` without leading and trailing whitespace, as `str::trim` leaves it.
pub open spec fn spec_trim(s: Seq<char>) -> Seq<char> {
    spec_trim_end(spec_trim_start(s))
}

/// Drop leading and trailing whitespace.
pub fn trim(s: &str) -> (r: String)
    ensures
        r@ == spec_trim(s@),
{
    let n = s.unicode_len();
    let mut lo: usize = 0;
    proof {
        assert(s@.skip(0) =~= s@);
    }
    while lo < n && is_whitespace(s.get_char(lo))
        invariant
            lo <= n,
            n == s@.len(),
            spec_trim_start(s@) == spec_trim_start(s@.skip(lo as int)),
        decreases n - lo,
    {
        proof {
            assert(s@.skip(lo as int)[0] == s@[lo as int]);
            assert(s@.skip(lo as int).drop_first() =~= s@.skip(lo + 1));
        }
        lo = lo + 1;
    }
    proof {
        if lo < n {
            assert(s@.skip(lo as int)[0] == s@[lo as int]);
        }
        assert(spec_trim_start(s@) == s@.skip(lo as int));
    }
    let mut hi: usize = n;
    proof {
        assert(s@.skip(lo as int).take(n - lo) =~= s@.skip(lo as int));
    }
    while hi > lo && is_whitespace(s.get_char(hi - 1))
        invariant
            lo <= hi <= n,
            n == s@.len(),
            spec_trim_start(s@) == s@.skip(lo as int),
            spec_trim_end(s@.skip(lo as int)) == spec_trim_end(
                s@.skip(lo as int).take(hi - lo as int),
            ),
        decreases hi,
    {
        proof {
            let part = s@.skip(lo as int).take(hi - lo as int);
            assert(part.last() == s@[hi - 1]);
            assert(part.drop_last() =~= s@.skip(lo as int).take(hi - 1 - lo as int));
        }
        hi = hi - 1;
    }
    proof {
        let part = s@.skip(lo as int).take(hi - lo as int);
        if hi > lo {
            assert(part.last() == s@[hi - 1]);
        }
        assert(spec_trim(s@) == part);
        assert(part =~= s@.subrange(lo as int, hi as int));
    }
    let r = s.substring_char(lo, hi);
    String::from_str(r)
}

/// Whether two pieces of text hold exactly the same characters.
pub fn str_eq(a: &str, b: &str) -> (r: bool)
    ensures
        r == (a@ == b@),
{
    let an = a.unicode_len();
    let bn = b.unicode_len();
    if an != bn {
        return false;
    }
    let mut i: usize = 0;
    while i < an
        invariant
            i <= an,
            an == a@.len(),
            an == b@.len(),
            forall|j: int| 0 <= j < i ==> a@[j] == b@[j],
        decreases an - i,
    {
        if a.get_char(i) != b.get_char(i) {
            return false;
        }
        i = i + 1;
    }
    proof {
        assert(a@ =~= b@);
    }
    true
}

/// Every element comes strictly before the next: sorted, with no duplicates.
pub open spec fn strictly_sorted(s: Seq<Seq<char>>) -> bool {
    forall|i: int, j: int| 0 <= i < j < s.len() ==> spec_str_lt(s[i], s[j])
}

/// Index of the first element not below `s`, by linear scan.
fn lower_bound(v: &Vec<String>, s: &str) -> (i: usize)
    ensures
        i <= v.len(),
        forall|j: int| 0 <= j < i ==> spec_str_lt(v.deep_view()[j], s@),
        i < v.len() ==> !spec_str_lt(v.deep_view()[i as int], s@),
{
    let mut i: usize = 0;
    while i < v.len() && str_lt(v[i].as_str(), s)
        invariant
            i <= v.len(),
            forall|j: int| 0 <= j < i ==> spec_str_lt(v.deep_view()[j], s@),
        decreases v.len() - i,
    {
        i = i + 1;
    }
    i
}

/// Insert `s` into a strictly sorted vector, keeping it strictly sorted;
/// an element already present is not inserted again.
pub fn insert_sorted_unique(v: &mut Vec<String>, s: String)
    requires
        strictly_sorted(old(v).deep_view()),
    ensures
        strictly_sorted(final(v).deep_view()),
        forall|x: Seq<char>|
            final(v).deep_view().contains(x) <==> (old(v).deep_view().contains(x) || x == s@),
{
    let ghost dv = v.deep_view();
    let i = lower_bound(v, s.as_str());
    if i < v.len() && str_eq(v[i].as_str(), s.as_str()) {
        proof {
            assert(dv[i as int] == s@);
            assert(dv.contains(s@));
        }
    } else {
        proof {
            if i < dv.len() {
                lemma_str_lt_total(s@, dv[i as int]);
            }
        }
        v.insert(i, s);
        proof {
            let nd = v.deep_view();
            assert(v@ == old(v)@.insert(i as int, s));
            old(v)@.insert_ensures(i as int, s);
            assert forall|j: int| 0 <= j < nd.len() implies nd[j] == dv.insert(i as int, s@)[j] by {
                dv.insert_ensures(i as int, s@);
                assert(nd[j] == v@[j]@);
                if j < i {
                    assert(v@[j] == old(v)@[j]);
                } else if j == i {
                    assert(v@[j] == s);
                } else {
                    assert(v@[(j - 1) + 1] == old(v)@[j - 1]);
                }
            }
            assert(nd =~= dv.insert(i as int, s@));
            dv.insert_ensures(i as int, s@);
            assert forall|j: int, k: int| 0 <= j < k < nd.len() implies spec_str_lt(
                nd[j],
                nd[k],
            ) by {
                if k < i {
                } else if k == i {
                    assert(spec_str_lt(dv[j], s@));
                } else {
                    assert(nd[k] == dv[k - 1]);
                    if j < i {
                        if i <= k - 1 && i < dv.len() {
                            if i < k - 1 {
                                lemma_str_lt_transitive(dv[j], dv[i as int], dv[k - 1]);
                            }
                        }
                        assert(spec_str_lt(dv[j], dv[k - 1]));
                    } else if j == i {
                        if i < k - 1 {
                            lemma_str_lt_transitive(s@, dv[i as int], dv[k - 1]);
                        }
                    } else {
                        assert(nd[j] == dv[j - 1]);
                    }
                }
            }
            assert forall|x: Seq<char>|
                nd.contains(x) <==> (dv.contains(x) || x == s@) by {
                if nd.contains(x) {
                    let w = choose|w: int| 0 <= w < nd.len() && nd[w] == x;
                    if w < i {
                        assert(dv[w] == x);
                    } else if w == i {
                    } else {
                        assert(dv[w - 1] == x);
                    }
                }
                if dv.contains(x) {
                    let w = choose|w: int| 0 <= w < dv.len() && dv[w] == x;
                    if w < i {
                        assert(nd[w] == x);
                    } else {
                        assert(nd[w + 1] == x);
                    }
                }
                if x == s@ {
                    assert(nd[i as int] == x);
                }
            }
        }
    }
}

/// Two strictly sorted sequences with the same members are the same
/// sequence: the sorted listing of a set of keys does not depend on the
/// order in which the keys were found.
pub proof fn lemma_strictly_sorted_same_elements_equal(s1: Seq<Seq<char>>, s2: Seq<Seq<char>>)
    requires
        strictly_sorted(s1),
        strictly_sorted(s2),
        forall|x: Seq<char>| s1.contains(x) <==> s2.contains(x),
    ensures
        s1 == s2,
    decreases s1.len(),
{
    if s1.len() == 0 {
        if s2.len() > 0 {
            assert(s2.contains(s2[0]));
            assert(false);
        }
        assert(s1 =~= s2);
    } else {
        assert(s1.contains(s1[0]));
        assert(s2.contains(s1[0]));
        if s2.len() == 0 {
            assert(false);
        }
        // The heads are both the least member, so they are equal.
        let w1 = choose|w: int| 0 <= w < s2.len() && s2[w] == s1[0];
        assert(s2.contains(s2[0]));
        assert(s1.contains(s2[0]));
        let w2 = choose|w: int| 0 <= w < s1.len() && s1[w] == s2[0];
        if w1 > 0 {
            assert(spec_str_lt(s2[0], s1[0]));
        }
        if w2 > 0 {
            assert(spec_str_lt(s1[0], s2[0]));
        }
        if w1 > 0 && w2 > 0 {
            lemma_str_lt_transitive(s1[0], s2[0], s1[0]);
            lemma_str_lt_irreflexive(s1[0]);
        }
        assert(s1[0] == s2[0]);
        // The tails hold the same members, so they are equal by induction.
        let t1 = s1.drop_first();
        let t2 = s2.drop_first();
        assert forall|x: Seq<char>| t1.contains(x) <==> t2.contains(x) by {
            lemma_tail_membership(s1, s2, x);
            lemma_tail_membership(s2, s1, x);
        }
        lemma_strictly_sorted_same_elements_equal(t1, t2);
        assert(s1 =~= seq![s1[0]] + t1);
        assert(s2 =~= seq![s2[0]] + t2);
    }
}

/// A member of the tail of `s1` is a member of the tail of `s2`, when the
/// two strictly sorted sequences share their members and their head.
proof fn lemma_tail_membership(s1: Seq<Seq<char>>, s2: Seq<Seq<char>>, x: Seq<char>)
    requires
        strictly_sorted(s1),
        strictly_sorted(s2),
        forall|y: Seq<char>| s1.contains(y) <==> s2.contains(y),
        s1.len() > 0,
        s2.len() > 0,
        s1[0] == s2[0],
    ensures
        s1.drop_first().contains(x) ==> s2.drop_first().contains(x),
{
    if s1.drop_first().contains(x) {
        let w = choose|w: int| 0 <= w < s1.drop_first().len() && s1.drop_first()[w] == x;
        assert(s1[w + 1] == x);
        assert(s1.contains(x));
        assert(s2.contains(x));
        let v = choose|v: int| 0 <= v < s2.len() && s2[v] == x;
        if v == 0 {
            // x would equal the shared head, yet the head comes before x.
            assert(spec_str_lt(s1[0], s1[w + 1]));
            lemma_str_lt_irreflexive(x);
            assert(false);
        }
        assert(s2.drop_first()[v - 1] == x);
        assert(s2.drop_first().contains(x));
    }
}

} // verus!
