//! Shortening file paths for display: abbreviating well-known directory names
//! and stripping the leading components that a set of paths share.
//!
//! A path is taken as the sequence of its components, as `Path::iter` yields
//! them (the root is the component `/`); two paths are equal as `Path`s when
//! their components are.
use crate::maps::{find_key, lemma_find_key, str_views, value_of};
use crate::text::{push_str, str_eq};
use vstd::prelude::*;

verus! {

broadcast use vstd::string::group_string_axioms;

// ---------------------------------------------------------------------------
// std's path handling
// ---------------------------------------------------------------------------
/// The components of the path `s`, each as a string, in the order `Path::iter` yields them.
pub uninterp spec fn path_parts(s: Seq<char>) -> Seq<Seq<char>>;

/// The path made by pushing the components `parts` in order onto an empty
/// `PathBuf` (what collecting them into a `PathBuf` gives), as a string.
pub uninterp spec fn joined_path(parts: Seq<Seq<char>>) -> Seq<char>;

/// `str::to_lowercase`.
pub uninterp spec fn lowercase(s: Seq<char>) -> Seq<char>;

/// `Path::iter` on `Path::new(s)`: the components of `s`, each turned into a
/// `String` (every component of a `&str` path is valid UTF-8, so nothing is lost).
#[verifier::external_body]
fn components(s: &str) -> (r: Vec<String>)
    ensures
        str_views(r@) == path_parts(s@),
{
    let mut parts = Vec::new();
    for c in std::path::Path::new(s).iter() {
        parts.push(c.to_string_lossy().into_owned());
    }
    parts
}

/// Collecting `parts` into a `PathBuf`, turned back into a `String`.
#[verifier::external_body]
fn join_parts(parts: &[String]) -> (r: String)
    ensures
        r@ == joined_path(str_views(parts@)),
{
    let p: std::path::PathBuf = parts.iter().collect();
    p.to_string_lossy().into_owned()
}

/// `str::to_lowercase`.
#[verifier::external_body]
fn to_lower(s: &str) -> (r: String)
    ensures
        r@ == lowercase(s@),
{
    s.to_lowercase()
}

// ---------------------------------------------------------------------------
// SmartAbbreviate
// ---------------------------------------------------------------------------
/// The abbreviation table: a lower-case directory name and its short form.
pub open spec fn standard_abbreviations() -> Seq<(Seq<char>, Seq<char>)> {
    seq![
        ("application"@, "app"@),
        ("configuration"@, "config"@),
        ("configurations"@, "configs"@),
        ("dependencies"@, "deps"@),
        ("documents"@, "docs"@),
        ("downloads"@, "dl"@),
        ("libraries"@, "libs"@),
        ("library"@, "lib"@),
        ("pictures"@, "pics"@),
        ("production"@, "prod"@),
        ("repository"@, "repo"@),
        ("source"@, "src"@),
        ("sources"@, "src"@),
    ]
}

/// The entries of a table of string pairs, as character sequences.
pub open spec fn pair_views(v: Seq<(String, String)>) -> Seq<(Seq<char>, Seq<char>)> {
    v.map_values(|p: (String, String)| (p.0@, p.1@))
}

/// A component after abbreviation: its short form when its lower-case spelling
/// is in `table`, else the component itself.
pub open spec fn abbreviated(table: Seq<(Seq<char>, Seq<char>)>, c: Seq<char>) -> Seq<char> {
    match value_of(table, lowercase(c)) {
        Some(a) => a,
        None => c,
    }
}

/// Replaces well-known directory names (any letter case) by short forms.
pub struct SmartAbbreviate {
    abbreviations: Vec<(String, String)>,
}

impl SmartAbbreviate {
    /// The table this transform abbreviates with.
    pub closed spec fn table(&self) -> Seq<(Seq<char>, Seq<char>)> {
        pair_views(self.abbreviations@)
    }

    /// The transform with the standard abbreviation table.
    pub fn new() -> (r: Self)
        ensures
            r.table() == standard_abbreviations(),
    {
        let mut v: Vec<(String, String)> = Vec::new();
        add_pair(&mut v, "application", "app");
        add_pair(&mut v, "configuration", "config");
        add_pair(&mut v, "configurations", "configs");
        add_pair(&mut v, "dependencies", "deps");
        add_pair(&mut v, "documents", "docs");
        add_pair(&mut v, "downloads", "dl");
        add_pair(&mut v, "libraries", "libs");
        add_pair(&mut v, "library", "lib");
        add_pair(&mut v, "pictures", "pics");
        add_pair(&mut v, "production", "prod");
        add_pair(&mut v, "repository", "repo");
        add_pair(&mut v, "source", "src");
        add_pair(&mut v, "sources", "src");
        let r = SmartAbbreviate { abbreviations: v };
        assert(r.table() =~= standard_abbreviations());
        r
    }

    /// The short form of `component`, when its lower-case spelling has one.
    fn abbreviate_component(&self, component: &str) -> (r: Option<String>)
        ensures
            r matches Some(a) ==> value_of(self.table(), lowercase(component@)) == Some(a@),
            r is None ==> value_of(self.table(), lowercase(component@)) is None,
    {
        let key = to_lower(component);
        let ghost t = self.table();
        proof {
            lemma_find_key(t, key@);
        }
        let mut i: usize = 0;
        while i < self.abbreviations.len()
            invariant
                i <= self.abbreviations.len(),
                t == self.table(),
                t.len() == self.abbreviations.len(),
                key@ == lowercase(component@),
                forall|j: int| 0 <= j < i ==> t[j].0 != key@,
                -1 <= find_key(t, key@) < t.len(),
                find_key(t, key@) >= 0 ==> t[find_key(t, key@)].0 == key@,
                find_key(t, key@) >= 0 ==> forall|j: int| 0 <= j < find_key(t, key@) ==> t[j].0 != key@,
                find_key(t, key@) < 0 ==> forall|j: int| 0 <= j < t.len() ==> t[j].0 != key@,
            decreases self.abbreviations.len() - i,
        {
            assert(t[i as int] == (self.abbreviations@[i as int].0@, self.abbreviations@[i as int].1@));
            if str_eq(self.abbreviations[i].0.as_str(), key.as_str()) {
                assert(find_key(t, key@) == i as int);
                return Some(self.abbreviations[i].1.clone());
            }
            i = i + 1;
        }
        None
    }

    /// `input` with each component replaced by its abbreviation, if any.
    pub fn transform(&self, input: &str) -> (r: String)
        ensures
            r@ == joined_path(path_parts(input@).map_values(|c: Seq<char>| abbreviated(self.table(), c))),
    {
        let parts = components(input);
        let mut out: Vec<String> = Vec::new();
        let mut i: usize = 0;
        while i < parts.len()
            invariant
                i <= parts.len(),
                str_views(parts@) == path_parts(input@),
                out.len() == i,
                forall|j: int| 0 <= j < i ==> #[trigger] out@[j]@ == abbreviated(self.table(), parts@[j]@),
            decreases parts.len() - i,
        {
            let c = parts[i].as_str();
            match self.abbreviate_component(c) {
                Some(a) => out.push(a),
                None => out.push(parts[i].clone()),
            }
            i = i + 1;
        }
        let ghost want = path_parts(input@).map_values(|c: Seq<char>| abbreviated(self.table(), c));
        assert(str_views(out@) =~= want) by {
            assert forall|j: int| 0 <= j < out.len() implies str_views(out@)[j] == want[j] by {
                assert(parts@[j]@ == path_parts(input@)[j]);
            }
        }
        join_parts(out.as_slice())
    }
}

impl Default for SmartAbbreviate {
    fn default() -> (r: Self)
        ensures
            r.table() == standard_abbreviations(),
    {
        SmartAbbreviate::new()
    }
}

/// Appends the pair `(k, v)` to `v`.
fn add_pair(t: &mut Vec<(String, String)>, k: &str, v: &str)
    ensures
        pair_views(final(t)@) == pair_views(old(t)@).push((k@, v@)),
{
    let mut a = String::new();
    push_str(&mut a, k);
    let mut b = String::new();
    push_str(&mut b, v);
    t.push((a, b));
    assert(pair_views(t@) =~= pair_views(old(t)@).push((k@, v@)));
}

// ---------------------------------------------------------------------------
// StripCommonPrefix
// ---------------------------------------------------------------------------
/// Whether the first `k` components of every path in `ps` exist and equal
/// those of the first path.
pub open spec fn shared_upto(ps: Seq<Seq<Seq<char>>>, k: int) -> bool {
    forall|i: int| 0 <= i < ps.len() ==> k <= #[trigger] ps[i].len() && ps[i].take(k) == ps[0].take(k)
}

/// `k` is the number of leading components that the paths `ps` share, the
/// common prefix that is stripped: none for fewer than two paths, else the
/// longest run of leading components that all of them have in common.
pub open spec fn is_common_len(ps: Seq<Seq<Seq<char>>>, k: int) -> bool {
    if ps.len() < 2 {
        k == 0
    } else {
        0 <= k && shared_upto(ps, k) && !shared_upto(ps, k + 1)
    }
}

/// The components of each path of `inputs`.
pub open spec fn all_parts(inputs: Seq<String>) -> Seq<Seq<Seq<char>>> {
    inputs.map_values(|s: String| path_parts(s@))
}

/// The path `s` once its first `k` components are stripped; with `k` zero,
/// `s` as it was written.
pub open spec fn stripped(s: Seq<char>, k: int) -> Seq<char> {
    if k == 0 {
        s
    } else {
        joined_path(path_parts(s).skip(k))
    }
}

/// Sharing `k + 1` leading components implies sharing `k`.
pub proof fn lemma_shared_down(ps: Seq<Seq<Seq<char>>>, k: int)
    requires
        0 <= k,
        shared_upto(ps, k + 1),
    ensures
        shared_upto(ps, k),
{
    assert forall|i: int| 0 <= i < ps.len() implies k <= #[trigger] ps[i].len() && ps[i].take(k)
        == ps[0].take(k) by {
        assert(ps[i].take(k) =~= ps[i].take(k + 1).take(k));
        assert(ps[0].take(k) =~= ps[0].take(k + 1).take(k));
    }
}

/// At most one count satisfies `is_common_len`: the stripped prefix is
/// determined by the paths.
pub proof fn lemma_common_len_unique(ps: Seq<Seq<Seq<char>>>, k1: int, k2: int)
    requires
        is_common_len(ps, k1),
        is_common_len(ps, k2),
    ensures
        k1 == k2,
    decreases k1 + k2,
{
    if ps.len() >= 2 && k1 != k2 {
        let (lo, hi) = if k1 < k2 {
            (k1, k2)
        } else {
            (k2, k1)
        };
        lemma_shared_chain(ps, lo + 1, hi);
    }
}

/// Sharing `hi` leading components implies sharing any `lo` of at most that.
proof fn lemma_shared_chain(ps: Seq<Seq<Seq<char>>>, lo: int, hi: int)
    requires
        0 <= lo <= hi,
        shared_upto(ps, hi),
    ensures
        shared_upto(ps, lo),
    decreases hi - lo,
{
    if lo < hi {
        lemma_shared_down(ps, hi - 1);
        lemma_shared_chain(ps, lo, hi - 1);
    }
}

/// Adding one path to a set that shares `k` components.
proof fn lemma_shared_extend(ps: Seq<Seq<Seq<char>>>, j: int, k: int)
    requires
        1 <= j < ps.len(),
    ensures
        shared_upto(ps.take(j + 1), k) == (shared_upto(ps.take(j), k) && k <= ps[j].len()
            && ps[j].take(k) == ps[0].take(k)),
{
    let a = ps.take(j);
    let b = ps.take(j + 1);
    assert(b[0] == ps[0] && a[0] == ps[0]);
    assert(b[j] == ps[j]);
    if shared_upto(b, k) {
        assert forall|i: int| 0 <= i < a.len() implies k <= #[trigger] a[i].len() && a[i].take(k)
            == a[0].take(k) by {
            assert(a[i] == b[i]);
        }
    }
    if shared_upto(a, k) && k <= ps[j].len() && ps[j].take(k) == ps[0].take(k) {
        assert forall|i: int| 0 <= i < b.len() implies k <= #[trigger] b[i].len() && b[i].take(k)
            == b[0].take(k) by {
            if i < j {
                assert(a[i] == b[i]);
            }
        }
    }
}

/// Whether the first `k` components of `path` are those of `first`.
fn starts_with_parts(path: &Vec<String>, first: &Vec<String>, k: usize) -> (b: bool)
    requires
        k <= first.len(),
    ensures
        b == (k <= path.len() && str_views(path@).take(k as int) == str_views(first@).take(k as int)),
{
    if k > path.len() {
        return false;
    }
    let mut j: usize = 0;
    while j < k
        invariant
            j <= k <= first.len(),
            k <= path.len(),
            forall|m: int| 0 <= m < j ==> path@[m]@ == first@[m]@,
        decreases k - j,
    {
        if !str_eq(path[j].as_str(), first[j].as_str()) {
            assert(str_views(path@).take(k as int)[j as int] != str_views(first@).take(k as int)[j as int]);
            return false;
        }
        j = j + 1;
    }
    assert(str_views(path@).take(k as int) =~= str_views(first@).take(k as int));
    true
}

/// The components of each path, as `Path::iter` yields them.
pub open spec fn parts_views(ps: Seq<Vec<String>>) -> Seq<Seq<Seq<char>>> {
    ps.map_values(|p: Vec<String>| str_views(p@))
}

/// The paths stripped of nothing and of their shared leading components.
pub struct StripCommonPrefix;

impl StripCommonPrefix {
    /// The number of leading components that the paths `ps` share. The first
    /// path's components are shortened from the end until they begin every
    /// other path; a root `/` that cannot be shortened further and does not
    /// begin some path means nothing is shared.
    fn common_prefix(ps: &Vec<Vec<String>>) -> (k: usize)
        ensures
            is_common_len(parts_views(ps@), k as int),
    {
        let ghost pv = parts_views(ps@);
        if ps.len() < 2 {
            return 0;
        }
        let first = &ps[0];
        let mut k: usize = first.len();
        let mut j: usize = 1;
        proof {
            assert(pv.take(1)[0] == pv[0]);
            assert(shared_upto(pv.take(1), k as int));
            assert(pv[0] == str_views(first@));
        }
        while j < ps.len()
            invariant
                1 <= j <= ps.len(),
                ps.len() >= 2,
                pv == parts_views(ps@),
                first == ps@[0],
                pv[0] == str_views(first@),
                k <= first.len(),
                shared_upto(pv.take(j as int), k as int),
                !shared_upto(pv.take(j as int), k + 1),
            decreases ps.len() - j,
        {
            let path = &ps[j];
            proof {
                assert(pv[j as int] == str_views(path@));
                lemma_shared_extend(pv, j as int, k + 1);
            }
            loop
                invariant
                    1 <= j < ps.len(),
                    pv == parts_views(ps@),
                    first == ps@[0],
                    path == ps@[j as int],
                    pv[0] == str_views(first@),
                    pv[j as int] == str_views(path@),
                    k <= first.len(),
                    shared_upto(pv.take(j as int), k as int),
                    !shared_upto(pv.take(j + 1), k + 1),
                ensures
                    k <= first.len(),
                    k <= path.len() && str_views(path@).take(k as int) == str_views(first@).take(k as int),
                    shared_upto(pv.take(j as int), k as int),
                    !shared_upto(pv.take(j + 1), k + 1),
                decreases k,
            {
                if starts_with_parts(path, first, k) {
                    break ;
                }
                if k == 0 || (k == 1 && str_eq(first[0].as_str(), "/")) {
                    proof {
                        lemma_shared_extend(pv, j as int, 1);
                        if k == 0 {
                            assert(str_views(path@).take(0) =~= str_views(first@).take(0));
                        }
                        lemma_no_root_shared(pv, j as int);
                    }
                    return 0;
                }
                proof {
                    lemma_shared_extend(pv, j as int, k as int);
                    lemma_shared_down(pv.take(j as int), k - 1);
                }
                k = k - 1;
            }
            proof {
                lemma_shared_extend(pv, j as int, k as int);
            }
            j = j + 1;
        }
        assert(pv.take(ps.len() as int) =~= pv);
        k
    }

    /// Each path with the leading components that all of `inputs` share
    /// stripped; a path is left as it was when there is nothing to strip
    /// (fewer than two paths, or no shared component).
    pub fn transform(&self, inputs: &[String]) -> (r: Vec<String>)
        ensures
            r.len() == inputs.len(),
            exists|k: int|
                is_common_len(all_parts(inputs@), k) && forall|i: int|
                    0 <= i < inputs.len() ==> #[trigger] r@[i]@ == stripped(inputs@[i]@, k),
    {
        let mut ps: Vec<Vec<String>> = Vec::new();
        let mut i: usize = 0;
        while i < inputs.len()
            invariant
                i <= inputs.len(),
                ps.len() == i,
                parts_views(ps@) == all_parts(inputs@).take(i as int),
            decreases inputs.len() - i,
        {
            let p = components(inputs[i].as_str());
            ps.push(p);
            assert(parts_views(ps@)[i as int] == all_parts(inputs@)[i as int]);
            i = i + 1;
            assert(parts_views(ps@) =~= all_parts(inputs@).take(i as int));
        }
        assert(all_parts(inputs@).take(inputs.len() as int) =~= all_parts(inputs@));
        let k = Self::common_prefix(&ps);
        let ghost pv = parts_views(ps@);
        let mut out: Vec<String> = Vec::new();
        let mut i: usize = 0;
        while i < inputs.len()
            invariant
                i <= inputs.len() == ps.len(),
                pv == parts_views(ps@),
                pv == all_parts(inputs@),
                is_common_len(pv, k as int),
                out.len() == i,
                forall|m: int| 0 <= m < i ==> #[trigger] out@[m]@ == stripped(inputs@[m]@, k as int),
            decreases inputs.len() - i,
        {
            if k == 0 {
                out.push(inputs[i].clone());
            } else {
                let parts = &ps[i];
                proof {
                    assert(pv[i as int] == str_views(parts@));
                    assert(pv[i as int] == path_parts(inputs@[i as int]@));
                    assert(k <= pv[i as int].len());
                }
                let mut rest: Vec<String> = Vec::new();
                let mut m: usize = k;
                while m < parts.len()
                    invariant
                        k <= m <= parts.len(),
                        rest.len() == m - k,
                        str_views(rest@) == str_views(parts@).subrange(k as int, m as int),
                    decreases parts.len() - m,
                {
                    rest.push(parts[m].clone());
                    assert(str_views(rest@)[rest.len() - 1] == str_views(parts@)[m as int]);
                    m = m + 1;
                    assert(str_views(rest@) =~= str_views(parts@).subrange(k as int, m as int));
                }
                assert(str_views(parts@).subrange(k as int, parts.len() as int) =~= str_views(
                    parts@,
                ).skip(k as int));
                out.push(join_parts(rest.as_slice()));
            }
            i = i + 1;
        }
        out
    }
}

/// A path that does not begin with the root `/` shares no component with
/// one that does.
proof fn lemma_no_root_shared(pv: Seq<Seq<Seq<char>>>, j: int)
    requires
        1 <= j < pv.len(),
        !(1 <= pv[j].len() && pv[j].take(1) == pv[0].take(1)),
    ensures
        is_common_len(pv, 0),
{
    assert(!shared_upto(pv, 1)) by {
        if shared_upto(pv, 1) {
            assert(1 <= pv[j].len() && pv[j].take(1) == pv[0].take(1));
        }
    }
    assert forall|i: int| 0 <= i < pv.len() implies 0 <= #[trigger] pv[i].len() && pv[i].take(0)
        == pv[0].take(0) by {
        assert(pv[i].take(0) =~= pv[0].take(0));
    }
}

} // verus!

verus! {

/// Which path transforms to apply, and with what settings; each builder
/// method sets one of them.
pub struct PathTransforms {
    pub strip_prefixes: Vec<String>,
    pub home_dir: bool,
    pub resolve_relative: bool,
    pub relative_to: Option<String>,
    pub smart_abbreviate: bool,
    pub strip_common_prefix: bool,
    pub minimal_unique_suffix: bool,
    pub single_letter: bool,
}

/// The settings of a [`PathTransforms`] as plain values.
pub struct TransformsView {
    pub strip_prefixes: Seq<Seq<char>>,
    pub home_dir: bool,
    pub resolve_relative: bool,
    pub relative_to: Option<Seq<char>>,
    pub smart_abbreviate: bool,
    pub strip_common_prefix: bool,
    pub minimal_unique_suffix: bool,
    pub single_letter: bool,
}

impl View for PathTransforms {
    type V = TransformsView;

    open spec fn view(&self) -> TransformsView {
        TransformsView {
            strip_prefixes: str_views(self.strip_prefixes@),
            home_dir: self.home_dir,
            resolve_relative: self.resolve_relative,
            relative_to: match self.relative_to {
                Some(p) => Some(p@),
                None => None,
            },
            smart_abbreviate: self.smart_abbreviate,
            strip_common_prefix: self.strip_common_prefix,
            minimal_unique_suffix: self.minimal_unique_suffix,
            single_letter: self.single_letter,
        }
    }
}

/// No transform at all.
pub open spec fn no_transforms() -> TransformsView {
    TransformsView {
        strip_prefixes: seq![],
        home_dir: false,
        resolve_relative: false,
        relative_to: None,
        smart_abbreviate: false,
        strip_common_prefix: false,
        minimal_unique_suffix: false,
        single_letter: false,
    }
}

impl PathTransforms {
    /// No transform enabled.
    pub fn new() -> (r: PathTransforms)
        ensures
            r@ == no_transforms(),
    {
        let r = PathTransforms {
            strip_prefixes: Vec::new(),
            home_dir: false,
            resolve_relative: false,
            relative_to: None,
            smart_abbreviate: false,
            strip_common_prefix: false,
            minimal_unique_suffix: false,
            single_letter: false,
        };
        assert(r@.strip_prefixes =~= Seq::<Seq<char>>::empty());
        r
    }

    /// Strip these leading paths.
    pub fn strip_prefix(self, prefixes: Vec<String>) -> (r: PathTransforms)
        ensures
            r@ == (TransformsView { strip_prefixes: str_views(prefixes@), ..self@ }),
    {
        PathTransforms { strip_prefixes: prefixes, ..self }
    }

    /// Replace the home directory with `~`.
    pub fn home_dir(self, on: bool) -> (r: PathTransforms)
        ensures
            r@ == (TransformsView { home_dir: on, ..self@ }),
    {
        PathTransforms { home_dir: on, ..self }
    }

    /// Normalize `.` and `..` components.
    pub fn resolve_relative(self, on: bool) -> (r: PathTransforms)
        ensures
            r@ == (TransformsView { resolve_relative: on, ..self@ }),
    {
        PathTransforms { resolve_relative: on, ..self }
    }

    /// Make paths relative to `base`, when given.
    pub fn relative_to(self, base: Option<&String>) -> (r: PathTransforms)
        ensures
            r@ == (TransformsView {
                relative_to: match base {
                    Some(b) => Some(b@),
                    None => None,
                },
                ..self@
            }),
    {
        let relative_to = match base {
            Some(b) => Some(b.clone()),
            None => None,
        };
        PathTransforms { relative_to, ..self }
    }

    /// Abbreviate well-known directory names.
    pub fn smart_abbreviate(self, on: bool) -> (r: PathTransforms)
        ensures
            r@ == (TransformsView { smart_abbreviate: on, ..self@ }),
    {
        PathTransforms { smart_abbreviate: on, ..self }
    }

    /// Remove the leading components shared by all paths.
    pub fn strip_common_prefix(self, on: bool) -> (r: PathTransforms)
        ensures
            r@ == (TransformsView { strip_common_prefix: on, ..self@ }),
    {
        PathTransforms { strip_common_prefix: on, ..self }
    }

    /// Shorten each path to its shortest unique suffix.
    pub fn minimal_unique_suffix(self, on: bool) -> (r: PathTransforms)
        ensures
            r@ == (TransformsView { minimal_unique_suffix: on, ..self@ }),
    {
        PathTransforms { minimal_unique_suffix: on, ..self }
    }

    /// Abbreviate directory components to single letters.
    pub fn single_letter(self, on: bool) -> (r: PathTransforms)
        ensures
            r@ == (TransformsView { single_letter: on, ..self@ }),
    {
        PathTransforms { single_letter: on, ..self }
    }
}

} // verus!
