//! Vendored templates: which packages of a Python environment are scanned
//! for templates, what `.pth` files and `direct_url.json` manifests point
//! at, and how the packages found by the three scans are merged.
use vstd::prelude::*;
use crate::discovery::strs;
use crate::text::{chars_of, has_prefix, range_eq, range_has_prefix, string_of, trim, trim_range};

verus! {

/// Whether `s` ends with `p`.
pub open spec fn has_suffix(s: Seq<char>, p: Seq<char>) -> bool {
    p.len() <= s.len() && s.skip(s.len() - p.len()) == p
}

fn ends_with(v: &Vec<char>, lit: &str) -> (r: bool)
    ensures
        r == has_suffix(v@, lit@),
{
    let p = chars_of(lit);
    if p.len() > v.len() {
        return false;
    }
    let r = range_eq(v, v.len() - p.len(), v.len(), &p);
    assert(v@.subrange(v@.len() - p@.len(), v@.len() as int) =~= v@.skip(v@.len() - p@.len()));
    r
}

fn starts_with(v: &Vec<char>, lit: &str) -> (r: bool)
    ensures
        r == has_prefix(v@, lit@),
{
    let p = chars_of(lit);
    let r = range_has_prefix(v, 0, v.len(), &p);
    assert(v@.subrange(0, v@.len() as int) =~= v@);
    r
}

/// Whether a directory of site-packages is no package to scan: package
/// metadata, a `.pth` file, or a name with a private or packaging-tool
/// prefix.
pub open spec fn skip_package_spec(name: Seq<char>) -> bool {
    ||| has_suffix(name, ".dist-info"@)
    ||| has_suffix(name, ".egg-info"@)
    ||| has_suffix(name, ".egg-link"@)
    ||| has_suffix(name, ".pth"@)
    ||| has_prefix(name, "_"@)
    ||| has_prefix(name, "pip"@)
    ||| has_prefix(name, "pkg_resources"@)
    ||| has_prefix(name, "setuptools"@)
    ||| has_prefix(name, "wheel"@)
    ||| has_prefix(name, "distutils"@)
}

/// The endings of directory entries that are package metadata, not
/// packages.
pub open spec fn metadata_suffixes() -> Set<Seq<char>> {
    set![".dist-info"@, ".egg-info"@, ".egg-link"@, ".pth"@]
}

/// The prefixes of names that are private modules or packaging tools.
pub open spec fn excluded_prefixes() -> Set<Seq<char>> {
    set!["_"@, "pip"@, "pkg_resources"@, "setuptools"@, "wheel"@, "distutils"@]
}

/// Law: a name is skipped exactly when it ends with a metadata suffix or
/// starts with an excluded prefix; every other package is kept.
pub proof fn law_skipped_packages(name: Seq<char>)
    ensures
        skip_package_spec(name) <==> {
            ||| exists|x: Seq<char>| metadata_suffixes().contains(x) && #[trigger] has_suffix(name, x)
            ||| exists|x: Seq<char>| excluded_prefixes().contains(x) && #[trigger] has_prefix(name, x)
        },
{
}

pub fn skip_package(name: &str) -> (r: bool)
    requires
        name@.len() > 0,
    ensures
        r == skip_package_spec(name@),
{
    let v = chars_of(name);
    ends_with(&v, ".dist-info") || ends_with(&v, ".egg-info") || ends_with(&v, ".egg-link")
        || ends_with(&v, ".pth") || starts_with(&v, "_") || starts_with(&v, "pip") || starts_with(
        &v,
        "pkg_resources",
    ) || starts_with(&v, "setuptools") || starts_with(&v, "wheel") || starts_with(&v, "distutils")
}

/// A line without the carriage return that ends it, if any.
pub open spec fn strip_cr(x: Seq<char>) -> Seq<char> {
    if x.len() > 0 && x.last() == '\r' {
        x.drop_last()
    } else {
        x
    }
}

/// The lines of `s` from the line starting at `start`, the scan being at
/// `i`: lines end at `\n` (a final `\n` starts no further line) and lose a
/// trailing `\r`.
pub open spec fn lines_from(s: Seq<char>, start: int, i: int) -> Seq<Seq<char>>
    decreases s.len() - i,
{
    if i < start || start < 0 || i >= s.len() {
        if 0 <= start < s.len() {
            seq![strip_cr(s.subrange(start, s.len() as int))]
        } else {
            seq![]
        }
    } else if s[i] == '\n' {
        seq![strip_cr(s.subrange(start, i))] + lines_from(s, i + 1, i + 1)
    } else {
        lines_from(s, start, i + 1)
    }
}

pub open spec fn lines_spec(s: Seq<char>) -> Seq<Seq<char>> {
    lines_from(s, 0, 0)
}

fn strip_cr_range(v: &Vec<char>, lo: usize, hi: usize) -> (r: usize)
    requires
        lo <= hi <= v.len(),
    ensures
        lo <= r <= hi,
        v@.subrange(lo as int, r as int) == strip_cr(v@.subrange(lo as int, hi as int)),
{
    if hi > lo && v[hi - 1] == '\r' {
        assert(v@.subrange(lo as int, hi - 1) =~= v@.subrange(lo as int, hi as int).drop_last());
        hi - 1
    } else {
        hi
    }
}

/// The lines of `content`: split at each `\n` (a final `\n` starts no
/// further line), each line losing one trailing `\r`, the last line too
/// when no `\n` follows it.
pub fn lines_of(content: &str) -> (r: Vec<String>)
    ensures
        strs(r@) == lines_spec(content@),
{
    let v = chars_of(content);
    let n = v.len();
    let mut out: Vec<String> = Vec::new();
    let mut start: usize = 0;
    let mut i: usize = 0;
    assert(strs(out@) + lines_from(content@, 0, 0) =~= lines_from(content@, 0, 0));
    while i < n
        invariant
            start <= i <= n,
            n == v@.len(),
            v@ == content@,
            lines_spec(content@) == strs(out@) + lines_from(content@, start as int, i as int),
        decreases n - i,
    {
        if v[i] == '\n' {
            let e = strip_cr_range(&v, start, i);
            let line = string_of(&v, start, e);
            let ghost before = strs(out@);
            out.push(line);
            assert(strs(out@) =~= before.push(strip_cr(content@.subrange(start as int, i as int))));
            assert(before + lines_from(content@, start as int, i as int) =~= strs(out@) + lines_from(
                content@,
                i + 1,
                i + 1,
            ));
            start = i + 1;
        }
        i += 1;
    }
    if start < n {
        let e = strip_cr_range(&v, start, n);
        let line = string_of(&v, start, e);
        let ghost before = strs(out@);
        out.push(line);
        assert(strs(out@) =~= before + lines_from(content@, start as int, i as int));
    } else {
        assert(strs(out@) =~= strs(out@) + lines_from(content@, start as int, i as int));
    }
    out
}

/// The directories a `.pth` file lists: its lines, trimmed, except empty
/// ones, comments and `import` lines.
pub open spec fn pth_spec(lines: Seq<Seq<char>>) -> Seq<Seq<char>>
    decreases lines.len(),
{
    if lines.len() == 0 {
        seq![]
    } else {
        let rest = pth_spec(lines.drop_last());
        let t = trim(lines.last());
        if t.len() == 0 || has_prefix(t, "#"@) || has_prefix(t, "import"@) {
            rest
        } else {
            rest.push(t)
        }
    }
}

/// The directories the `.pth` file `content` lists.
pub fn pth_entries(content: &str) -> (r: Vec<String>)
    ensures
        strs(r@) == pth_spec(lines_spec(content@)),
{
    let lines = lines_of(content);
    let ghost ls = lines_spec(content@);
    let mut out: Vec<String> = Vec::new();
    let mut i: usize = 0;
    assert(ls.take(0) =~= Seq::<Seq<char>>::empty());
    while i < lines.len()
        invariant
            i <= lines@.len(),
            strs(lines@) == ls,
            strs(out@) == pth_spec(ls.take(i as int)),
        decreases lines.len() - i,
    {
        assert(ls.take(i + 1).drop_last() =~= ls.take(i as int));
        let v = crate::text::chars_of_string(&lines[i]);
        let (a, b) = trim_range(&v, 0, v.len());
        assert(v@.subrange(0, v@.len() as int) =~= v@);
        let t = string_of(&v, a, b);
        let tv = crate::text::chars_of_string(&t);
        if tv.len() > 0 && !starts_with(&tv, "#") && !starts_with(&tv, "import") {
            let ghost before = strs(out@);
            out.push(t);
            assert(strs(out@) =~= before.push(trim(ls[i as int])));
        }
        i += 1;
    }
    assert(ls.take(i as int) =~= ls);
    out
}

/// Law: the entries of lines taken in two runs are the entries of the first
/// run followed by those of the second, and a single line gives its
/// trimmed text unless that is empty, a comment or an `import` line.
pub proof fn law_pth_entries(a: Seq<Seq<char>>, b: Seq<Seq<char>>, line: Seq<char>)
    ensures
        pth_spec(a + b) == pth_spec(a) + pth_spec(b),
        pth_spec(seq![line]) == if trim(line).len() == 0 || has_prefix(trim(line), "#"@) || has_prefix(
            trim(line),
            "import"@,
        ) {
            Seq::<Seq<char>>::empty()
        } else {
            seq![trim(line)]
        },
    decreases b.len(),
{
    assert(seq![line].drop_last() =~= Seq::<Seq<char>>::empty());
    assert(pth_spec(Seq::<Seq<char>>::empty()) == Seq::<Seq<char>>::empty());
    assert(seq![line].last() == line);
    if b.len() == 0 {
        assert(a + b =~= a);
        assert(pth_spec(a) + pth_spec(b) =~= pth_spec(a));
    } else {
        law_pth_entries(a, b.drop_last(), line);
        assert((a + b).drop_last() =~= a + b.drop_last());
        assert((a + b).last() == b.last());
        assert(pth_spec(a + b) =~= pth_spec(a) + pth_spec(b));
    }
    assert(pth_spec(seq![line]) =~= if trim(line).len() == 0 || has_prefix(trim(line), "#"@) || has_prefix(
        trim(line),
        "import"@,
    ) {
        Seq::<Seq<char>>::empty()
    } else {
        seq![trim(line)]
    });
}

/// Law: the path of a URL is what follows `file://`, and it is found
/// exactly when the URL is `file://` followed by an absolute path.
pub proof fn law_url_path(url: Seq<char>, path: Seq<char>)
    ensures
        url_path_spec(url) == Some(path) <==> (url == "file://"@ + path && path.len() > 0 && path[0] == '/'),
        url_path_spec(url) is None <==> !(has_prefix(url, "file://"@) && url.len() > 7 && url[7] == '/'),
{
    reveal_strlit("file://");
    if url == "file://"@ + path {
        assert(url.take(7) =~= "file://"@);
        assert(url.skip(7) =~= path);
    }
    if url_path_spec(url) == Some(path) {
        assert(url =~= "file://"@ + path);
    }
}

/// The first line of `content`, trimmed, unless there is none or it is
/// empty: the package a `top_level.txt` names.
pub fn top_level_name(content: &str) -> (r: Option<String>)
    ensures
        match r {
            Some(n) => lines_spec(content@).len() > 0 && n@ == trim(lines_spec(content@)[0]) && n@.len()
                > 0,
            None => lines_spec(content@).len() == 0 || trim(lines_spec(content@)[0]).len() == 0,
        },
{
    let lines = lines_of(content);
    if lines.len() == 0 {
        return None;
    }
    let v = crate::text::chars_of_string(&lines[0]);
    let (a, b) = trim_range(&v, 0, v.len());
    assert(v@.subrange(0, v@.len() as int) =~= v@);
    if a == b {
        return None;
    }
    Some(string_of(&v, a, b))
}

/// The path a `file://` URL names, when it is absolute.
pub open spec fn url_path_spec(url: Seq<char>) -> Option<Seq<char>> {
    if has_prefix(url, "file://"@) {
        let rest = url.skip(7);
        if rest.len() > 0 && rest[0] == '/' {
            Some(rest)
        } else {
            None
        }
    } else {
        None
    }
}

pub fn url_to_path(url: &str) -> (r: Option<String>)
    requires
        url@.len() > 0,
    ensures
        match url_path_spec(url@) {
            Some(p) => r is Some && r->0@ == p,
            None => r is None,
        },
{
    let v = chars_of(url);
    if !starts_with(&v, "file://") {
        return None;
    }
    proof {
        reveal_strlit("file://");
    }
    if v.len() > 7 && v[7] == '/' {
        let s = string_of(&v, 7, v.len());
        assert(url@.skip(7) =~= url@.subrange(7, url@.len() as int));
        Some(s)
    } else {
        None
    }
}

/// The package a `.dist-info` directory is named for: what precedes the
/// first `-` of the name without its suffix; empty for other names.
pub open spec fn dist_name_spec(directory: Seq<char>) -> Seq<char> {
    if has_suffix(directory, ".dist-info"@) {
        let stripped = directory.take(directory.len() - 10);
        match crate::text::find(stripped, "-"@) {
            Some(k) => stripped.take(k),
            None => stripped,
        }
    } else {
        seq![]
    }
}

/// The first dash of `s` from `i` on is at `k` (or there is none when `k`
/// is the end), given that none stands in between.
proof fn lemma_find_dash(s: Seq<char>, i: int, k: int)
    requires
        0 <= i <= k <= s.len(),
        forall|j: int| i <= j < k ==> s[j] != '-',
        k < s.len() ==> s[k] == '-',
    ensures
        crate::text::find_from(s, "-"@, i) == if k < s.len() {
            Some(k)
        } else {
            None::<int>
        },
    decreases k - i,
{
    reveal_strlit("-");
    if i < s.len() {
        if i < k {
            assert(s.subrange(i, i + 1) != "-"@) by {
                assert(s.subrange(i, i + 1)[0] == s[i]);
            }
            lemma_find_dash(s, i + 1, k);
        } else {
            assert(s.subrange(i, i + 1) =~= "-"@);
        }
    }
}

/// Law: a `.dist-info` directory is named for the package before its first
/// dash: `name-version.dist-info` (a name without dashes, any version) and
/// `name.dist-info` both give `name`.
pub proof fn law_dist_info_name(name: Seq<char>, version: Seq<char>)
    requires
        forall|j: int| 0 <= j < name.len() ==> name[j] != '-',
    ensures
        dist_name_spec(name + "-"@ + version + ".dist-info"@) == name,
        dist_name_spec(name + ".dist-info"@) == name,
{
    reveal_strlit(".dist-info");
    reveal_strlit("-");
    let d1 = name + "-"@ + version + ".dist-info"@;
    let s1 = name + "-"@ + version;
    assert(d1.skip(d1.len() - 10) =~= ".dist-info"@);
    assert(d1.take(d1.len() - 10) =~= s1);
    lemma_find_dash(s1, 0, name.len() as int);
    assert(s1.take(name.len() as int) =~= name);
    let d2 = name + ".dist-info"@;
    assert(d2.skip(d2.len() - 10) =~= ".dist-info"@);
    assert(d2.take(d2.len() - 10) =~= name);
    lemma_find_dash(name, 0, name.len() as int);
}

pub fn extract_name(directory: &str) -> (r: String)
    requires
        directory@.len() > 0,
    ensures
        r@ == dist_name_spec(directory@),
{
    let v = chars_of(directory);
    if !ends_with(&v, ".dist-info") {
        return String::new();
    }
    proof {
        reveal_strlit(".dist-info");
    }
    let end = v.len() - 10;
    let dash = chars_of("-");
    let stripped = string_of(&v, 0, end);
    let sv = crate::text::chars_of_string(&stripped);
    assert(sv@ =~= directory@.take(directory@.len() - 10));
    match crate::text::find_in(&sv, &dash, 0) {
        Some(k) => {
            proof {
                crate::text::lemma_find_from_bounds(sv@, dash@, 0);
            }
            let r = string_of(&sv, 0, k);
            assert(r@ =~= sv@.take(k as int));
            r
        },
        None => stripped,
    }
}

/// A package with templates: its name, where it is, and its template
/// directories.
#[derive(Debug, Clone)]
pub struct VendorSource {
    pub name: String,
    pub path: String,
    pub directories: Vec<String>,
}

/// The view of a source: its name, its path and its directories.
pub open spec fn source_view(s: VendorSource) -> (Seq<char>, Seq<char>, Seq<Seq<char>>) {
    (s.name@, s.path@, strs(s.directories@))
}

pub open spec fn sources_view(v: Seq<VendorSource>) -> Seq<(Seq<char>, Seq<char>, Seq<Seq<char>>)> {
    v.map_values(|s: VendorSource| source_view(s))
}

pub open spec fn source_names(v: Seq<VendorSource>) -> Seq<Seq<char>> {
    v.map_values(|s: VendorSource| s.name@)
}

/// The sources of `xs` from index `i` on whose names are not yet `seen`,
/// each name counting as seen once kept.
pub open spec fn keep_new(xs: Seq<VendorSource>, i: int, seen: Seq<Seq<char>>) -> Seq<VendorSource>
    decreases xs.len() - i,
{
    if i < 0 || i >= xs.len() {
        seq![]
    } else if seen.contains(xs[i].name@) {
        keep_new(xs, i + 1, seen)
    } else {
        seq![xs[i]] + keep_new(xs, i + 1, seen.push(xs[i].name@))
    }
}

/// The packages of the three scans merged: every package found in
/// site-packages, then the editable packages of `.pth` files and then
/// those of `direct_url.json` manifests whose names are new.
pub open spec fn merge_spec(
    primary: Seq<VendorSource>,
    editable: Seq<VendorSource>,
    dist: Seq<VendorSource>,
) -> Seq<VendorSource> {
    let e = keep_new(editable, 0, source_names(primary));
    primary + e + keep_new(dist, 0, source_names(primary) + source_names(e))
}

/// Whether one of `seen` is `name`.
fn seen_name(seen: &Vec<String>, name: &String) -> (r: bool)
    ensures
        r == strs(seen@).contains(name@),
{
    let r = crate::compiler::resolver::inheritance::contains_string(seen, name);
    proof {
        if r {
            let j = choose|j: int| 0 <= j < seen@.len() && (#[trigger] seen@[j])@ == name@;
            assert(strs(seen@)[j] == name@);
        }
    }
    r
}

/// Appends the sources of `xs` whose names are not in `seen`, recording
/// each name kept.
fn append_new(out: &mut Vec<VendorSource>, seen: &mut Vec<String>, xs: Vec<VendorSource>)
    ensures
        sources_view(final(out)@) == sources_view(old(out)@) + sources_view(
            keep_new(xs@, 0, strs(old(seen)@)),
        ),
        strs(final(seen)@) == strs(old(seen)@) + source_names(keep_new(xs@, 0, strs(old(seen)@))),
{
    let ghost o0 = sources_view(out@);
    let ghost s0 = strs(seen@);
    let mut i: usize = 0;
    assert(sources_view(out@) =~= o0 + sources_view(keep_new(xs@, 0, s0).take(0)));
    while i < xs.len()
        invariant
            i <= xs@.len(),
            keep_new(xs@, 0, s0) == keep_new(xs@, 0, s0).take(out@.len() - o0.len())
                + keep_new(xs@, i as int, strs(seen@)),
            out@.len() >= o0.len(),
            o0.len() <= out@.len() <= o0.len() + keep_new(xs@, 0, s0).len(),
            sources_view(out@) == o0 + sources_view(keep_new(xs@, 0, s0).take(out@.len() - o0.len())),
            strs(seen@) == s0 + source_names(keep_new(xs@, 0, s0).take(out@.len() - o0.len())),
        decreases xs.len() - i,
    {
        let ghost k = out@.len() - o0.len();
        let ghost total = keep_new(xs@, 0, s0);
        if !seen_name(seen, &xs[i].name) {
            let ghost sv = strs(seen@);
            let ghost ov = sources_view(out@);
            seen.push(xs[i].name.clone());
            let c = xs[i].clone_source();
            out.push(c);
            assert(total.take(k + 1) =~= total.take(k).push(xs@[i as int]));
            assert(total[k] == xs@[i as int]);
            assert(strs(seen@) =~= sv.push(xs@[i as int].name@));
            assert(sources_view(out@) =~= ov.push(source_view(xs@[i as int])));
            assert(sources_view(total.take(k + 1)) =~= sources_view(total.take(k)).push(
                source_view(xs@[i as int]),
            ));
        }
        i += 1;
    }
    assert(keep_new(xs@, i as int, strs(seen@)) =~= Seq::<VendorSource>::empty());
    assert(keep_new(xs@, 0, s0).take(out@.len() - o0.len()) =~= keep_new(xs@, 0, s0));
    assert(sources_view(out@) == o0 + sources_view(keep_new(xs@, 0, s0)));
}

impl VendorSource {
    /// A copy of the source.
    pub fn clone_source(&self) -> (r: Self)
        ensures
            source_view(r) == source_view(*self),
    {
        VendorSource {
            name: self.name.clone(),
            path: self.path.clone(),
            directories: crate::compiler::ast::clone_strings(&self.directories),
        }
    }
}

/// Merges the packages of the three scans of site-packages.
pub fn merge_sources(primary: Vec<VendorSource>, editable: Vec<VendorSource>, dist: Vec<VendorSource>) -> (r: Vec<
    VendorSource,
>)
    ensures
        sources_view(r@) == sources_view(merge_spec(primary@, editable@, dist@)),
{
    let mut seen: Vec<String> = Vec::new();
    let mut i: usize = 0;
    while i < primary.len()
        invariant
            i <= primary@.len(),
            strs(seen@) == source_names(primary@.take(i as int)),
        decreases primary.len() - i,
    {
        let ghost before = strs(seen@);
        seen.push(primary[i].name.clone());
        assert(strs(seen@) =~= before.push(primary@[i as int].name@));
        assert(source_names(primary@.take(i + 1)) =~= source_names(primary@.take(i as int)).push(
            primary@[i as int].name@,
        ));
        i += 1;
    }
    assert(primary@.take(i as int) =~= primary@);
    let ghost p0 = primary@;
    let mut out = primary;
    let ghost e = keep_new(editable@, 0, source_names(p0));
    append_new(&mut out, &mut seen, editable);
    append_new(&mut out, &mut seen, dist);
    proof {
        let d = keep_new(dist@, 0, source_names(p0) + source_names(e));
        assert(sources_view(p0 + e + d) =~= sources_view(p0) + sources_view(e) + sources_view(d));
    }
    out
}

/// What a `direct_url.json` manifest says: whether the package was
/// installed in editable mode, and the URL of its source.
#[derive(Debug, Clone)]
pub struct DirectUrl {
    pub editable: bool,
    pub url: Option<String>,
}

/// Where an editable package's source is and which package it holds: the
/// directory its `file://` URL names, and the package that `top_level`
/// (the first line of `top_level.txt`) names, else the one the
/// `.dist-info` directory is named for.
pub open spec fn editable_spec(
    editable: bool,
    url: Option<Seq<char>>,
    top_level: Option<Seq<char>>,
    directory: Seq<char>,
) -> Option<(Seq<char>, Seq<char>)> {
    if !editable {
        None
    } else {
        match url {
            None => None,
            Some(u) => if u.len() == 0 {
                None
            } else {
                match url_path_spec(u) {
                    None => None,
                    Some(source) => {
                        let package = match top_level {
                            Some(t) => t,
                            None => dist_name_spec(directory),
                        };
                        if package.len() == 0 || skip_package_spec(package) {
                            None
                        } else {
                            Some((source, package))
                        }
                    },
                }
            },
        }
    }
}

/// The source directory and package of an editable install, from its
/// manifest, its `top_level.txt` name and its `.dist-info` directory name.
pub fn editable_package(direct: &DirectUrl, top_level: Option<String>, directory: &str) -> (r: Option<
    (String, String),
>)
    requires
        directory@.len() > 0,
    ensures
        match editable_spec(
            direct.editable,
            match direct.url {
                Some(u) => Some(u@),
                None => None,
            },
            match top_level {
                Some(t) => Some(t@),
                None => None,
            },
            directory@,
        ) {
            Some((source, package)) => (r matches Some(p) && p.0@ == source && p.1@ == package),
            None => r is None,
        },
{
    if !direct.editable {
        return None;
    }
    let url = match &direct.url {
        None => {
            return None;
        },
        Some(u) => u,
    };
    if url.as_str().is_empty() {
        return None;
    }
    let source = match url_to_path(url.as_str()) {
        None => {
            return None;
        },
        Some(s) => s,
    };
    let package = match top_level {
        Some(t) => t,
        None => extract_name(directory),
    };
    if package.as_str().is_empty() || skip_package(package.as_str()) {
        return None;
    }
    Some((source, package))
}

} // verus!
