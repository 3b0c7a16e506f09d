//! Where the output directory is staged and kept while compiled templates
//! replace it: siblings of the output directory named after it.
use vstd::prelude::*;
use crate::text::{chars_of, string_of};

verus! {

/// Whether `s` ends with a separator or with a `/.` component.
pub open spec fn trailing_mark(s: Seq<char>) -> bool {
    s.len() > 0 && (s.last() == '/' || (s.len() >= 2 && s.last() == '.' && s[s.len() - 2] == '/'))
}

/// `s` without its trailing separators and `.` components, as a path's
/// components read it.
pub open spec fn strip_slashes(s: Seq<char>) -> Seq<char>
    decreases s.len(),
{
    if trailing_mark(s) {
        strip_slashes(s.drop_last())
    } else {
        s
    }
}

/// The last component of `s` (what follows its last separator).
pub open spec fn last_component(s: Seq<char>) -> Seq<char>
    decreases s.len(),
{
    if s.len() == 0 || s.last() == '/' {
        seq![]
    } else {
        last_component(s.drop_last()).push(s.last())
    }
}

/// An output directory that has a name: its last component is neither
/// empty nor `.` nor `..` (paths written with `/` separators).
pub open spec fn has_dir_name(output: Seq<char>) -> bool {
    let c = last_component(strip_slashes(output));
    c.len() > 0 && c != "."@ && c != ".."@
}

/// The sibling of the directory `output` named after it with `suffix`.
pub open spec fn sibling_spec(output: Seq<char>, suffix: Seq<char>) -> Seq<char> {
    strip_slashes(output) + suffix
}

fn sibling(output: &str, suffix: &str) -> (r: String)
    ensures
        r@ == sibling_spec(output@, suffix@),
{
    let v = chars_of(output);
    let mut n = v.len();
    assert(v@.take(n as int) =~= v@);
    while n > 0 && (v[n - 1] == '/' || (n >= 2 && v[n - 1] == '.' && v[n - 2] == '/'))
        invariant
            n <= v@.len(),
            v@ == output@,
            strip_slashes(output@) == strip_slashes(v@.take(n as int)),
        decreases n,
    {
        assert(v@.take(n as int).drop_last() =~= v@.take(n - 1));
        n -= 1;
    }
    assert(v@.take(n as int) =~= v@.subrange(0, n as int));
    let mut s = string_of(&v, 0, n);
    crate::text::append_str(&mut s, suffix);
    s
}

/// Where compiled templates are staged before they replace `output`.
pub fn staging_path(output: &str) -> (r: String)
    requires
        has_dir_name(output@),
    ensures
        r@ == sibling_spec(output@, "_staging"@),
{
    sibling(output, "_staging")
}

/// Where the previous output is kept while the staged one replaces it.
pub fn previous_path(output: &str) -> (r: String)
    requires
        has_dir_name(output@),
    ensures
        r@ == sibling_spec(output@, "_previous"@),
{
    sibling(output, "_previous")
}

/// Where the record of a swap in progress is written.
pub fn journal_path(output: &str) -> (r: String)
    requires
        has_dir_name(output@),
    ensures
        r@ == sibling_spec(output@, "_swap_journal.json"@),
{
    sibling(output, "_swap_journal.json")
}

pub proof fn lemma_strip_slashes(s: Seq<char>)
    ensures
        strip_slashes(s).len() <= s.len(),
        strip_slashes(s) == s.take(strip_slashes(s).len() as int),
        strip_slashes(s).len() < s.len() ==> s[strip_slashes(s).len() as int] == '/',
    decreases s.len(),
{
    if trailing_mark(s) {
        lemma_strip_slashes(s.drop_last());
        let t = strip_slashes(s.drop_last());
        assert(s.drop_last().take(t.len() as int) =~= s.take(t.len() as int));
        if t.len() == s.len() - 1 {
            assert(t =~= s.drop_last());
            assert(s.last() == '/' || (s.len() >= 2 && s[s.len() - 2] == '/'));
            if s.last() != '/' {
                assert(trailing_mark(t) ==> false) by {
                    if trailing_mark(t) {
                        assert(strip_slashes(t) != t) by {
                            lemma_strip_shorter(t);
                        }
                    }
                }
            }
        }
    }
}

proof fn lemma_strip_shorter(s: Seq<char>)
    requires
        trailing_mark(s),
    ensures
        strip_slashes(s).len() < s.len(),
    decreases s.len(),
{
    lemma_strip_slashes(s.drop_last());
}

/// Whether `output` names a directory, as `has_dir_name` says.
pub fn names_directory(output: &str) -> (r: bool)
    ensures
        r == has_dir_name(output@),
{
    let v = chars_of(output);
    let mut n = v.len();
    assert(v@.take(n as int) =~= v@);
    while n > 0 && (v[n - 1] == '/' || (n >= 2 && v[n - 1] == '.' && v[n - 2] == '/'))
        invariant
            n <= v@.len(),
            v@ == output@,
            strip_slashes(output@) == strip_slashes(v@.take(n as int)),
        decreases n,
    {
        assert(v@.take(n as int).drop_last() =~= v@.take(n - 1));
        n -= 1;
    }
    let ghost t = v@.take(n as int);
    assert(strip_slashes(output@) == t);
    let mut start = n;
    while start > 0 && v[start - 1] != '/'
        invariant
            start <= n <= v@.len(),
            t == v@.take(n as int),
            last_component(t) == last_component(v@.take(start as int)) + v@.subrange(start as int, n as int),
        decreases start,
    {
        assert(v@.take(start as int).drop_last() =~= v@.take(start - 1));
        assert(v@.subrange(start - 1, n as int) =~= seq![v@[start - 1]] + v@.subrange(start as int, n as int));
        start -= 1;
    }
    assert(last_component(v@.take(start as int)) =~= Seq::<char>::empty());
    let len = n - start;
    proof {
        reveal_strlit(".");
        reveal_strlit("..");
        assert(last_component(t) =~= v@.subrange(start as int, n as int));
    }
    if len == 0 {
        false
    } else if len == 1 && v[start] == '.' {
        assert(last_component(t) =~= "."@);
        false
    } else if len == 2 && v[start] == '.' && v[start + 1] == '.' {
        assert(last_component(t) =~= ".."@);
        false
    } else {
        proof {
            if last_component(t) == "."@ {
                assert(last_component(t)[0] == '.');
            }
            if last_component(t) == ".."@ {
                assert(last_component(t)[0] == '.' && last_component(t)[1] == '.');
            }
        }
        true
    }
}

/// The staging, previous and journal paths are never the output directory
/// itself (nor is any sibling named with a suffix that does not start
/// with a separator).
pub proof fn law_sibling_differs(output: Seq<char>, suffix: Seq<char>)
    requires
        suffix.len() > 0,
        suffix[0] != '/',
    ensures
        sibling_spec(output, suffix) != output,
{
    lemma_strip_slashes(output);
    let t = strip_slashes(output);
    let r = sibling_spec(output, suffix);
    if r == output {
        assert(r.len() == t.len() + suffix.len());
        assert(t.len() < output.len());
        assert(r[t.len() as int] == suffix[0]);
    }
}

} // verus!
