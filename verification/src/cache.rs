//! The incremental-compilation cache: what is remembered of each compiled
//! template (a SHA-256 digest of its bytes, its size and its modification
//! time), and when a template needs compiling again.
use vstd::prelude::*;

verus! {

/// The SHA-256 digest of `data`.
pub uninterp spec fn sha256_of(data: Seq<u8>) -> Seq<u8>;

/// `sha2::Sha256::digest`: the 32-byte SHA-256 digest of `data`.  The
/// digest is a function of the bytes alone; nothing more of its value is
/// claimed.
#[verifier::external_body]
fn sha256(data: &[u8]) -> (r: Vec<u8>)
    ensures
        r@ == sha256_of(data@),
        r@.len() == 32,
{
    <sha2::Sha256 as sha2::Digest>::digest(data).to_vec()
}

/// The lowercase hexadecimal digit of `n` (below 16).
pub open spec fn hex_digit(n: u8) -> char {
    if n == 0 {
        '0'
    } else if n == 1 {
        '1'
    } else if n == 2 {
        '2'
    } else if n == 3 {
        '3'
    } else if n == 4 {
        '4'
    } else if n == 5 {
        '5'
    } else if n == 6 {
        '6'
    } else if n == 7 {
        '7'
    } else if n == 8 {
        '8'
    } else if n == 9 {
        '9'
    } else if n == 10 {
        'a'
    } else if n == 11 {
        'b'
    } else if n == 12 {
        'c'
    } else if n == 13 {
        'd'
    } else if n == 14 {
        'e'
    } else {
        'f'
    }
}

/// Two lowercase hexadecimal digits per byte.
pub open spec fn hex_spec(bytes: Seq<u8>) -> Seq<char>
    decreases bytes.len(),
{
    if bytes.len() == 0 {
        seq![]
    } else {
        let b = bytes.last();
        hex_spec(bytes.drop_last()) + seq![hex_digit(b / 16), hex_digit(b % 16)]
    }
}

fn hex_char(n: u8) -> (c: char)
    requires
        n < 16,
    ensures
        c == hex_digit(n),
{
    if n == 0 {
        '0'
    } else if n == 1 {
        '1'
    } else if n == 2 {
        '2'
    } else if n == 3 {
        '3'
    } else if n == 4 {
        '4'
    } else if n == 5 {
        '5'
    } else if n == 6 {
        '6'
    } else if n == 7 {
        '7'
    } else if n == 8 {
        '8'
    } else if n == 9 {
        '9'
    } else if n == 10 {
        'a'
    } else if n == 11 {
        'b'
    } else if n == 12 {
        'c'
    } else if n == 13 {
        'd'
    } else if n == 14 {
        'e'
    } else {
        'f'
    }
}

/// The lowercase hexadecimal notation of `bytes`.
pub fn hex_string(bytes: &[u8]) -> (r: String)
    ensures
        r@ == hex_spec(bytes@),
{
    let mut s = String::new();
    let mut i: usize = 0;
    assert(bytes@.take(0) =~= Seq::<u8>::empty());
    while i < bytes.len()
        invariant
            i <= bytes@.len(),
            s@ == hex_spec(bytes@.take(i as int)),
        decreases bytes.len() - i,
    {
        let b = bytes[i];
        assert(bytes@.take(i + 1).drop_last() =~= bytes@.take(i as int));
        s.push(hex_char(b / 16));
        s.push(hex_char(b % 16));
        assert(s@ =~= hex_spec(bytes@.take(i + 1)));
        i += 1;
    }
    assert(bytes@.take(i as int) =~= bytes@);
    s
}

/// What the cache remembers of a compiled template.
#[derive(Debug, Clone)]
pub struct FileEntry {
    pub hash: String,
    pub size: u64,
    pub modified: u64,
}

/// The cache entry of a template with the bytes `data`, last modified at
/// `modified` (seconds since the Unix epoch).
pub fn file_entry(data: &[u8], modified: u64) -> (r: FileEntry)
    requires
        data@.len() <= u64::MAX,
    ensures
        r.hash@ == hex_spec(sha256_of(data@)),
        r.hash@.len() == 64,
        r.size == data@.len(),
        r.modified == modified,
{
    let digest = sha256(data);
    let hash = hex_string(digest.as_slice());
    proof {
        lemma_hex_len(digest@);
    }
    FileEntry { hash, size: data.len() as u64, modified }
}

pub proof fn lemma_hex_len(bytes: Seq<u8>)
    ensures
        hex_spec(bytes).len() == 2 * bytes.len(),
    decreases bytes.len(),
{
    if bytes.len() > 0 {
        lemma_hex_len(bytes.drop_last());
    }
}

/// The cache: an entry per compiled template name, the names compiled, and
/// when the last compilation finished.
#[derive(Debug, Clone)]
pub struct CompileManifest {
    pub files: Vec<(String, FileEntry)>,
    pub resolve_templates: Vec<String>,
    pub last_compilation: String,
}

/// The entry the manifest holds for `name` (its last one).
pub open spec fn manifest_entry(files: Seq<(String, FileEntry)>, name: Seq<char>) -> Option<FileEntry>
    decreases files.len(),
{
    if files.len() == 0 {
        None
    } else if files.last().0@ == name {
        Some(files.last().1)
    } else {
        manifest_entry(files.drop_last(), name)
    }
}

impl CompileManifest {
    /// A manifest that remembers nothing.
    pub fn empty() -> (r: Self)
        ensures
            r.files@.len() == 0,
            r.resolve_templates@.len() == 0,
            r.last_compilation@.len() == 0,
    {
        CompileManifest { files: Vec::new(), resolve_templates: Vec::new(), last_compilation: String::new() }
    }

    /// The entry remembered for `name`.
    pub fn entry_of(&self, name: &str) -> (r: Option<&FileEntry>)
        ensures
            match r {
                Some(e) => manifest_entry(self.files@, name@) == Some(*e),
                None => manifest_entry(self.files@, name@) is None,
            },
    {
        let key = name.to_owned();
        let mut k = self.files.len();
        assert(self.files@.take(k as int) =~= self.files@);
        while k > 0
            invariant
                k <= self.files@.len(),
                key@ == name@,
                manifest_entry(self.files@, name@) == manifest_entry(self.files@.take(k as int), name@),
            decreases k,
        {
            assert(self.files@.take(k as int).drop_last() =~= self.files@.take(k - 1));
            if self.files[k - 1].0 == key {
                return Some(&self.files[k - 1].1);
            }
            k -= 1;
        }
        None
    }

    /// Whether the template `name`, whose current entry is `current` (`None`
    /// when it cannot be read), must be compiled again: it was never
    /// compiled, cannot be read, or its digest or size changed.
    pub fn needs_recompile(&self, name: &str, current: Option<&FileEntry>) -> (r: bool)
        ensures
            r == needs_recompile_spec(self.files@, name@, current),
    {
        match self.entry_of(name) {
            None => true,
            Some(cached) => match current {
                None => true,
                Some(now) => !string_eq(&cached.hash, &now.hash) || cached.size != now.size,
            },
        }
    }

    /// Remembers `entry` for `name` and counts `name` as compiled.
    pub fn mark_compiled(&mut self, name: &str, entry: FileEntry)
        ensures
            manifest_entry(final(self).files@, name@) == Some(entry),
            forall|other: Seq<char>|
                other != name@ ==> manifest_entry(final(self).files@, other) == manifest_entry(
                    old(self).files@,
                    other,
                ),
            final(self).resolve_templates@.len() >= old(self).resolve_templates@.len(),
            exists|i: int|
                0 <= i < final(self).resolve_templates@.len()
                    && (#[trigger] final(self).resolve_templates@[i])@ == name@,
            final(self).last_compilation == old(self).last_compilation,
    {
        let key = name.to_owned();
        if !crate::compiler::resolver::inheritance::contains_string(&self.resolve_templates, &key) {
            let ghost prev = self.resolve_templates@;
            self.resolve_templates.push(name.to_owned());
            assert(self.resolve_templates@[prev.len() as int]@ == name@);
        }
        let ghost before = self.files@;
        self.files.push((key, entry));
        assert(self.files@.drop_last() =~= before);
    }
}

/// Whether two strings are equal.
fn string_eq(a: &String, b: &String) -> (r: bool)
    ensures
        r == (a@ == b@),
{
    *a == *b
}

/// Whether a template must be compiled again, given what the manifest
/// remembers of it and its current entry.
pub open spec fn needs_recompile_spec(
    files: Seq<(String, FileEntry)>,
    name: Seq<char>,
    current: Option<&FileEntry>,
) -> bool {
    match (manifest_entry(files, name), current) {
        (Some(cached), Some(now)) => cached.hash@ != now.hash@ || cached.size != now.size,
        _ => true,
    }
}

/// A template just marked compiled with an entry does not need compiling
/// again while its entry stays the same; marking it leaves every other
/// template's answer as it was.
pub proof fn law_marked_is_fresh(
    before: Seq<(String, FileEntry)>,
    after: Seq<(String, FileEntry)>,
    name: Seq<char>,
    entry: FileEntry,
)
    requires
        manifest_entry(after, name) == Some(entry),
        forall|other: Seq<char>|
            other != name ==> manifest_entry(after, other) == manifest_entry(before, other),
    ensures
        !needs_recompile_spec(after, name, Some(&entry)),
        forall|other: Seq<char>, current: Option<&FileEntry>|
            other != name ==> needs_recompile_spec(after, other, current) == needs_recompile_spec(
                before,
                other,
                current,
            ),
{
}

} // verus!
