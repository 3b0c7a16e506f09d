//! Where a template name leads: the project's own templates first, then
//! the vendored ones, which are found by any trailing part of their path.
use vstd::prelude::*;
use crate::discovery::{find_pair, pair_lookup, pairs_view, TemplateIndex};

verus! {

/// `p` itself, then what follows each `/` of `p` that is not its last
/// character, in order.
pub open spec fn suffixes_spec(p: Seq<char>) -> Seq<Seq<char>> {
    seq![p] + suffixes_from(p, 0)
}

pub open spec fn suffixes_from(p: Seq<char>, i: int) -> Seq<Seq<char>>
    decreases p.len() - i,
{
    if i < 0 || i >= p.len() {
        seq![]
    } else if p[i] == '/' && i + 1 < p.len() {
        seq![p.skip(i + 1)] + suffixes_from(p, i + 1)
    } else {
        suffixes_from(p, i + 1)
    }
}

/// The trailing parts of a vendored template's path by which it can be
/// found: the whole path, and what follows each separator.
pub fn suffixes(path: &str) -> (r: Vec<String>)
    requires
        path@.len() > 0,
    ensures
        crate::discovery::strs(r@) == suffixes_spec(path@),
{
    let chars = crate::text::chars_of(path);
    let mut out: Vec<String> = Vec::new();
    out.push(path.to_owned());
    let n = chars.len();
    let mut i: usize = 0;
    assert(crate::discovery::strs(out@) =~= seq![path@]);
    assert(suffixes_spec(path@) =~= seq![path@] + suffixes_from(path@, 0));
    while i < n
        invariant
            i <= n,
            n == chars@.len(),
            chars@ == path@,
            seq![path@] + suffixes_from(path@, 0) == crate::discovery::strs(out@) + suffixes_from(
                path@,
                i as int,
            ),
        decreases n - i,
    {
        if chars[i] == '/' && i + 1 < n {
            let s = crate::text::string_of(&chars, i + 1, n);
            let ghost before = crate::discovery::strs(out@);
            out.push(s);
            assert(path@.skip(i + 1) =~= path@.subrange(i + 1, n as int));
            assert(crate::discovery::strs(out@) =~= before.push(path@.skip(i + 1)));
            assert(before + suffixes_from(path@, i as int) =~= crate::discovery::strs(out@)
                + suffixes_from(path@, i + 1));
        }
        i += 1;
    }
    assert(suffixes_from(path@, i as int) =~= Seq::<Seq<char>>::empty());
    assert(crate::discovery::strs(out@) + suffixes_from(path@, i as int) =~= crate::discovery::strs(
        out@,
    ));
    out
}

/// How many separators `p` holds: the depth of a vendored template.
pub open spec fn slash_count(p: Seq<char>) -> nat
    decreases p.len(),
{
    if p.len() == 0 {
        0
    } else {
        slash_count(p.drop_last()) + if p.last() == '/' {
            1nat
        } else {
            0nat
        }
    }
}

/// The vendored templates: for each suffix, the path of the shallowest
/// template it names (the first found among equally shallow ones) and its
/// depth.
#[derive(Debug, Clone)]
pub struct VendorIndex {
    pub lookup: Vec<(String, String, u32)>,
}

pub open spec fn vendor_view(v: Seq<(String, String, u32)>) -> Seq<(Seq<char>, Seq<char>, u32)> {
    v.map_values(|e: (String, String, u32)| (e.0@, e.1@, e.2))
}

/// The path and depth the last entry for `key` holds.
pub open spec fn vendor_lookup(v: Seq<(Seq<char>, Seq<char>, u32)>, key: Seq<char>) -> Option<
    (Seq<char>, u32),
>
    decreases v.len(),
{
    if v.len() == 0 {
        None
    } else if v.last().0 == key {
        Some((v.last().1, v.last().2))
    } else {
        vendor_lookup(v.drop_last(), key)
    }
}

impl VendorIndex {
    pub fn new() -> (r: Self)
        ensures
            r.lookup@.len() == 0,
    {
        VendorIndex { lookup: Vec::new() }
    }

    pub(crate) fn entry(&self, key: &String) -> (r: Option<(&String, u32)>)
        ensures
            match r {
                Some((p, d)) => vendor_lookup(vendor_view(self.lookup@), key@) == Some((p@, d)),
                None => vendor_lookup(vendor_view(self.lookup@), key@) is None,
            },
    {
        let ghost v = vendor_view(self.lookup@);
        let mut k = self.lookup.len();
        assert(v.take(k as int) =~= v);
        while k > 0
            invariant
                k <= self.lookup@.len(),
                v == vendor_view(self.lookup@),
                vendor_lookup(v, key@) == vendor_lookup(v.take(k as int), key@),
            decreases k,
        {
            assert(v.take(k as int).drop_last() =~= v.take(k - 1));
            if self.lookup[k - 1].0 == *key {
                return Some((&self.lookup[k - 1].1, self.lookup[k - 1].2));
            }
            k -= 1;
        }
        None
    }

    /// Records the vendored template `name` (its path relative to the vendor
    /// directory, with `/` separators) found at `path`: each suffix of the
    /// name leads to it unless a template no deeper already has it.
    pub fn add(&mut self, name: &str, path: &String)
        requires
            name@.len() > 0,
            slash_count(name@) <= u32::MAX,
        ensures
            forall|key: Seq<char>|
                #[trigger] vendor_lookup(vendor_view(final(self).lookup@), key) == if suffixes_spec(
                    name@,
                ).contains(key) && match vendor_lookup(vendor_view(old(self).lookup@), key) {
                    Some((_, d)) => slash_count(name@) < d,
                    None => true,
                } {
                    Some((path@, slash_count(name@) as u32))
                } else {
                    vendor_lookup(vendor_view(old(self).lookup@), key)
                },
    {
        let depth = count_slashes(name);
        let keys = suffixes(name);
        let ghost ks = crate::discovery::strs(keys@);
        let ghost start = vendor_view(self.lookup@);
        let mut i: usize = 0;
        while i < keys.len()
            invariant
                i <= keys@.len(),
                ks == crate::discovery::strs(keys@),
                ks == suffixes_spec(name@),
                depth == slash_count(name@),
                start == vendor_view(old(self).lookup@),
                forall|key: Seq<char>|
                    #[trigger] vendor_lookup(vendor_view(self.lookup@), key) == if ks.take(i as int).contains(
                        key,
                    ) && match vendor_lookup(start, key) {
                        Some((_, d)) => depth < d,
                        None => true,
                    } {
                        Some((path@, depth))
                    } else {
                        vendor_lookup(start, key)
                    },
            decreases keys.len() - i,
        {
            let key = &keys[i];
            let insert = match self.entry(key) {
                Some((_, d)) => depth < d,
                None => true,
            };
            let ghost before = vendor_view(self.lookup@);
            if insert {
                self.lookup.push((key.clone(), path.clone(), depth));
                assert(vendor_view(self.lookup@).drop_last() =~= before);
            }
            assert forall|k2: Seq<char>|
                #[trigger] vendor_lookup(vendor_view(self.lookup@), k2) == if ks.take(i + 1).contains(k2)
                    && match vendor_lookup(start, k2) {
                    Some((_, d)) => depth < d,
                    None => true,
                } {
                    Some((path@, depth))
                } else {
                    vendor_lookup(start, k2)
                } by {
                assert(ks.take(i + 1) =~= ks.take(i as int).push(ks[i as int]));
                assert(ks[i as int] == key@);
                if ks.take(i as int).contains(k2) {
                    assert(ks.take(i + 1).contains(k2));
                }
                if k2 != key@ {
                    if ks.take(i + 1).contains(k2) {
                        let t1 = ks.take(i + 1);
                        let q = choose|q: int| 0 <= q < t1.len() && #[trigger] t1[q] == k2;
                        assert(q < i);
                        assert(ks.take(i as int)[q] == k2);
                    }
                    assert(vendor_lookup(vendor_view(self.lookup@), k2) == vendor_lookup(before, k2));
                } else {
                    assert(ks.take(i + 1)[i as int] == k2);
                    assert(ks.take(i + 1).contains(k2));
                }
            }
            i += 1;
        }
        assert(ks.take(i as int) =~= ks);
    }

    /// The path of the vendored template that `name` leads to.
    pub fn find(&self, name: &String) -> (r: Option<String>)
        requires
            name@.len() > 0,
        ensures
            match vendor_lookup(vendor_view(self.lookup@), name@) {
                Some((p, _)) => r is Some && r->0@ == p,
                None => r is None,
            },
    {
        match self.entry(name) {
            Some((p, _)) => Some(p.clone()),
            None => None,
        }
    }
}

/// How many separators `name` holds.
fn count_slashes(name: &str) -> (r: u32)
    requires
        slash_count(name@) <= u32::MAX,
    ensures
        r == slash_count(name@),
{
    let chars = crate::text::chars_of(name);
    let mut n: u32 = 0;
    let mut i: usize = 0;
    assert(name@.take(0) =~= Seq::<char>::empty());
    while i < chars.len()
        invariant
            i <= chars@.len(),
            chars@ == name@,
            n == slash_count(name@.take(i as int)),
            slash_count(name@) <= u32::MAX,
        decreases chars.len() - i,
    {
        assert(name@.take(i + 1).drop_last() =~= name@.take(i as int));
        proof {
            lemma_slash_count_prefix(name@, i + 1);
        }
        if chars[i] == '/' {
            n += 1;
        }
        i += 1;
    }
    assert(name@.take(i as int) =~= name@);
    n
}

pub proof fn lemma_slash_count_prefix(p: Seq<char>, k: int)
    requires
        0 <= k <= p.len(),
    ensures
        slash_count(p.take(k)) <= slash_count(p),
    decreases p.len() - k,
{
    if k < p.len() {
        lemma_slash_count_prefix(p, k + 1);
        assert(p.take(k + 1).drop_last() =~= p.take(k));
    } else {
        assert(p.take(k) =~= p);
    }
}

/// The path the template `name` leads to: the project's template of that
/// name, else the vendored one.
pub fn resolve_path(name: &String, index: &TemplateIndex, vendor: &VendorIndex) -> (r: Option<String>)
    requires
        name@.len() > 0,
    ensures
        match pair_lookup(pairs_view(index.templates@), name@) {
            Some(p) => r is Some && r->0@ == p,
            None => match vendor_lookup(vendor_view(vendor.lookup@), name@) {
                Some((p, _)) => r is Some && r->0@ == p,
                None => r is None,
            },
        },
{
    match find_pair(&index.templates, name) {
        Some(p) => Some(p.clone()),
        None => vendor.find(name),
    }
}

/// As `resolve_path`, but the project's template counts only when it is not
/// at the path `exclude`.
pub fn resolve_excluding(
    name: &String,
    index: &TemplateIndex,
    exclude: Option<&String>,
    vendor: &VendorIndex,
) -> (r: Option<String>)
    requires
        name@.len() > 0,
    ensures
        match pair_lookup(pairs_view(index.templates@), name@) {
            Some(p) if !(exclude matches Some(x) && x@ == p) => r is Some && r->0@ == p,
            _ => match vendor_lookup(vendor_view(vendor.lookup@), name@) {
                Some((p, _)) => r is Some && r->0@ == p,
                None => r is None,
            },
        },
{
    match find_pair(&index.templates, name) {
        Some(p) => {
            let dominated = match exclude {
                Some(x) => *p == *x,
                None => false,
            };
            if !dominated {
                return Some(p.clone());
            }
        },
        None => {},
    }
    vendor.find(name)
}

} // verus!
