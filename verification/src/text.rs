//! Character-level string model shared by the lexer, the parser and the
//! code generator.  Every string operation the template compiler needs is
//! stated over `Seq<char>` and implemented over `Vec<char>` index ranges.
use vstd::prelude::*;

verus! {

/// `String::push` (std): the string afterwards is the string before with the
/// character `ch` appended at its end.
pub assume_specification[ String::push ](string: &mut String, ch: char)
    ensures
        final(string)@ == old(string)@.push(ch),
;

/// Unicode `White_Space`, the set that `char::is_whitespace` tests.
pub open spec fn is_ws(c: char) -> bool {
    let u = c as u32;
    ||| 0x09 <= u <= 0x0D
    ||| u == 0x20
    ||| u == 0x85
    ||| u == 0xA0
    ||| u == 0x1680
    ||| 0x2000 <= u <= 0x200A
    ||| u == 0x2028
    ||| u == 0x2029
    ||| u == 0x202F
    ||| u == 0x205F
    ||| u == 0x3000
}

pub fn is_whitespace(c: char) -> (r: bool)
    ensures
        r == is_ws(c),
{
    let u = c as u32;
    (0x09 <= u && u <= 0x0D) || u == 0x20 || u == 0x85 || u == 0xA0 || u == 0x1680 || (0x2000
        <= u && u <= 0x200A) || u == 0x2028 || u == 0x2029 || u == 0x202F || u == 0x205F || u
        == 0x3000
}

/// `s` with leading whitespace removed.
pub open spec fn trim_start(s: Seq<char>) -> Seq<char>
    decreases s.len(),
{
    if s.len() > 0 && is_ws(s[0]) {
        trim_start(s.drop_first())
    } else {
        s
    }
}

/// `s` with trailing whitespace removed.
pub open spec fn trim_end(s: Seq<char>) -> Seq<char>
    decreases s.len(),
{
    if s.len() > 0 && is_ws(s.last()) {
        trim_end(s.drop_last())
    } else {
        s
    }
}

/// `str::trim`: both ends.
pub open spec fn trim(s: Seq<char>) -> Seq<char> {
    trim_end(trim_start(s))
}

/// `str::trim_start_matches(p)` for a non-empty pattern `p`: every leading
/// repetition of `p` is removed.
pub open spec fn strip_all(s: Seq<char>, p: Seq<char>) -> Seq<char>
    decreases s.len(),
{
    if p.len() > 0 && p.len() <= s.len() && s.take(p.len() as int) == p {
        strip_all(s.skip(p.len() as int), p)
    } else {
        s
    }
}

/// `str::trim_start_matches(c)` for a single char.
pub open spec fn strip_char_start(s: Seq<char>, c: char) -> Seq<char>
    decreases s.len(),
{
    if s.len() > 0 && s[0] == c {
        strip_char_start(s.drop_first(), c)
    } else {
        s
    }
}

/// `str::trim_end_matches(c)` for a single char.
pub open spec fn strip_char_end(s: Seq<char>, c: char) -> Seq<char>
    decreases s.len(),
{
    if s.len() > 0 && s.last() == c {
        strip_char_end(s.drop_last(), c)
    } else {
        s
    }
}

/// `str::trim_matches(c)` for a single char.
pub open spec fn trim_char(s: Seq<char>, c: char) -> Seq<char> {
    strip_char_end(strip_char_start(s, c), c)
}

/// `.trim_matches('\'').trim_matches('"')`.
pub open spec fn unquote(s: Seq<char>) -> Seq<char> {
    trim_char(trim_char(s, '\''), '"')
}

/// `s` starts with `p`.
pub open spec fn has_prefix(s: Seq<char>, p: Seq<char>) -> bool {
    p.len() <= s.len() && s.take(p.len() as int) == p
}

/// `p` occurs in `s` at index `i`.
pub open spec fn occurs_at(s: Seq<char>, p: Seq<char>, i: int) -> bool {
    0 <= i && i + p.len() <= s.len() && s.subrange(i, i + p.len()) == p
}

/// Index of the first occurrence of `p` in `s` at or after `from`.
pub open spec fn find_from(s: Seq<char>, p: Seq<char>, from: int) -> Option<int>
    decreases s.len() + 1 - from,
{
    if from < 0 || from + p.len() > s.len() {
        None
    } else if occurs_at(s, p, from) {
        Some(from)
    } else {
        find_from(s, p, from + 1)
    }
}

/// Index of the first occurrence of `p` in `s`.
pub open spec fn find(s: Seq<char>, p: Seq<char>) -> Option<int> {
    find_from(s, p, 0)
}

/// `str::contains`.
pub open spec fn contains(s: Seq<char>, p: Seq<char>) -> bool {
    find(s, p) is Some
}

/// `str::split(p)` for a non-empty pattern: the pieces between
/// left-to-right, non-overlapping occurrences of `p`, empty pieces included.
pub open spec fn split(s: Seq<char>, p: Seq<char>) -> Seq<Seq<char>>
    decreases s.len(),
{
    if p.len() == 0 {
        seq![s]
    } else {
        match find(s, p) {
            None => seq![s],
            Some(i) => {
                proof {
                    lemma_find_from_bounds(s, p, 0);
                }
                seq![s.take(i)] + split(s.skip(i + p.len()), p)
            },
        }
    }
}

pub proof fn lemma_split_nonempty(s: Seq<char>, p: Seq<char>)
    ensures
        split(s, p).len() > 0,
    decreases s.len(),
{
    if p.len() > 0 {
        match find(s, p) {
            None => {},
            Some(i) => {
                lemma_find_from_bounds(s, p, 0);
            },
        }
    }
}

pub proof fn lemma_find_from_bounds(s: Seq<char>, p: Seq<char>, from: int)
    ensures
        find_from(s, p, from) matches Some(i) ==> from <= i && occurs_at(s, p, i),
        0 <= from && find_from(s, p, from) is None ==> forall|j: int|
            from <= j ==> !#[trigger] occurs_at(s, p, j),
    decreases s.len() + 1 - from,
{
    if from < 0 || from + p.len() > s.len() {
    } else if occurs_at(s, p, from) {
    } else {
        lemma_find_from_bounds(s, p, from + 1);
    }
}

/// Length of the leading run of non-whitespace characters.
pub open spec fn word_len(s: Seq<char>) -> nat
    decreases s.len(),
{
    if s.len() > 0 && !is_ws(s[0]) {
        1 + word_len(s.drop_first())
    } else {
        0
    }
}

/// `str::split_whitespace`.
pub open spec fn words(s: Seq<char>) -> Seq<Seq<char>>
    decreases s.len(),
{
    if s.len() == 0 {
        seq![]
    } else if is_ws(s[0]) {
        words(s.drop_first())
    } else {
        let n = word_len(s);
        proof {
            lemma_word_len(s);
        }
        seq![s.take(n as int)] + words(s.skip(n as int))
    }
}

/// `split_whitespace().next().unwrap_or("")`.
pub open spec fn first_word(s: Seq<char>) -> Seq<char> {
    if words(s).len() > 0 {
        words(s)[0]
    } else {
        seq![]
    }
}

pub proof fn lemma_trim_start_len(s: Seq<char>)
    ensures
        trim_start(s).len() <= s.len(),
        trim_start(s) == s.skip(s.len() - trim_start(s).len()),
    decreases s.len(),
{
    if s.len() > 0 && is_ws(s[0]) {
        lemma_trim_start_len(s.drop_first());
        assert(s.drop_first().skip(s.drop_first().len() - trim_start(s).len()) =~= s.skip(
            s.len() - trim_start(s).len(),
        ));
    } else {
        assert(s.skip(0) =~= s);
    }
}

pub proof fn lemma_word_len(s: Seq<char>)
    ensures
        word_len(s) <= s.len(),
        s.len() > 0 && !is_ws(s[0]) ==> word_len(s) > 0,
        forall|i: int| 0 <= i < word_len(s) ==> !is_ws(#[trigger] s[i]),
        word_len(s) < s.len() ==> is_ws(s[word_len(s) as int]),
    decreases s.len(),
{
    if s.len() > 0 && !is_ws(s[0]) {
        lemma_word_len(s.drop_first());
        assert forall|i: int| 0 <= i < word_len(s) implies !is_ws(#[trigger] s[i]) by {
            if i > 0 {
                assert(s[i] == s.drop_first()[i - 1]);
            }
        }
    }
}

/// The characters of a string slice.
pub fn chars_of(s: &str) -> (r: Vec<char>)
    ensures
        r@ == s@,
{
    let mut v: Vec<char> = Vec::new();
    for c in it: s.chars()
        invariant
            v@ == it.seq().take(it.index() as int),
            it.seq() == s@,
    {
        v.push(c);
    }
    v
}

/// The characters of a string.
pub fn chars_of_string(s: &String) -> (r: Vec<char>)
    ensures
        r@ == s@,
{
    chars_of(s.as_str())
}

/// A string holding `v[lo..hi]`.
pub fn string_of(v: &Vec<char>, lo: usize, hi: usize) -> (r: String)
    requires
        lo <= hi <= v.len(),
    ensures
        r@ == v@.subrange(lo as int, hi as int),
{
    let mut s = String::new();
    let mut i: usize = lo;
    while i < hi
        invariant
            lo <= i <= hi <= v.len(),
            s@ == v@.subrange(lo as int, i as int),
        decreases hi - i,
    {
        s.push(v[i]);
        i += 1;
        assert(s@ =~= v@.subrange(lo as int, i as int));
    }
    s
}

/// A string holding all of `v`.
pub fn string_of_all(v: &Vec<char>) -> (r: String)
    ensures
        r@ == v@,
{
    let r = string_of(v, 0, v.len());
    assert(v@.subrange(0, v@.len() as int) =~= v@);
    r
}

/// `s` with `t` appended.
pub fn append_str(s: &mut String, t: &str)
    ensures
        final(s)@ == old(s)@ + t@,
{
    let cs = chars_of(t);
    let mut i: usize = 0;
    while i < cs.len()
        invariant
            i <= cs.len(),
            cs@ == t@,
            s@ == old(s)@ + cs@.take(i as int),
        decreases cs.len() - i,
    {
        s.push(cs[i]);
        i += 1;
        assert(s@ =~= old(s)@ + cs@.take(i as int));
    }
    assert(cs@.take(cs.len() as int) =~= cs@);
}

/// Whether `v[lo..hi]` equals `p`.
pub fn range_eq(v: &Vec<char>, lo: usize, hi: usize, p: &Vec<char>) -> (r: bool)
    requires
        lo <= hi <= v.len(),
    ensures
        r == (v@.subrange(lo as int, hi as int) == p@),
{
    if hi - lo != p.len() {
        return false;
    }
    let mut i: usize = 0;
    while i < p.len()
        invariant
            lo <= hi <= v.len(),
            hi - lo == p.len(),
            i <= p.len(),
            forall|k: int| 0 <= k < i ==> v@[lo + k] == p@[k],
        decreases p.len() - i,
    {
        if v[lo + i] != p[i] {
            assert(v@.subrange(lo as int, hi as int)[i as int] != p@[i as int]);
            return false;
        }
        i += 1;
    }
    assert(v@.subrange(lo as int, hi as int) =~= p@);
    true
}

/// Whether `v` equals the literal `lit`.
pub fn eq_lit(v: &Vec<char>, lit: &str) -> (r: bool)
    ensures
        r == (v@ == lit@),
{
    let p = chars_of(lit);
    let r = range_eq(v, 0, v.len(), &p);
    assert(v@.subrange(0, v@.len() as int) =~= v@);
    r
}

/// Whether `v[lo..hi]` starts with `p`.
pub fn range_has_prefix(v: &Vec<char>, lo: usize, hi: usize, p: &Vec<char>) -> (r: bool)
    requires
        lo <= hi <= v.len(),
    ensures
        r == has_prefix(v@.subrange(lo as int, hi as int), p@),
{
    if p.len() > hi - lo {
        return false;
    }
    let r = range_eq(v, lo, lo + p.len(), p);
    assert(v@.subrange(lo as int, hi as int).take(p.len() as int) =~= v@.subrange(
        lo as int,
        lo + p.len(),
    ));
    r
}

/// Whether `p` occurs in `v[lo..hi]` at relative index `i`.
pub fn range_occurs_at(v: &Vec<char>, lo: usize, hi: usize, p: &Vec<char>, i: usize) -> (r: bool)
    requires
        lo <= hi <= v.len(),
        i <= hi - lo,
    ensures
        r == occurs_at(v@.subrange(lo as int, hi as int), p@, i as int),
{
    if p.len() > hi - lo - i {
        return false;
    }
    let r = range_eq(v, lo + i, lo + i + p.len(), p);
    assert(v@.subrange(lo as int, hi as int).subrange(i as int, i + p.len()) =~= v@.subrange(
        lo + i,
        lo + i + p.len(),
    ));
    r
}

/// Bounds of `trim(v[lo..hi])` inside `v`.
pub fn trim_range(v: &Vec<char>, lo: usize, hi: usize) -> (r: (usize, usize))
    requires
        lo <= hi <= v.len(),
    ensures
        lo <= r.0 <= r.1 <= hi,
        v@.subrange(r.0 as int, r.1 as int) == trim(v@.subrange(lo as int, hi as int)),
{
    let mut a = lo;
    while a < hi && is_whitespace(v[a])
        invariant
            lo <= a <= hi <= v.len(),
            trim_start(v@.subrange(lo as int, hi as int)) == trim_start(
                v@.subrange(a as int, hi as int),
            ),
        decreases hi - a,
    {
        assert(v@.subrange(a as int, hi as int).drop_first() =~= v@.subrange(a + 1, hi as int));
        a += 1;
    }
    let mut b = hi;
    while b > a && is_whitespace(v[b - 1])
        invariant
            lo <= a <= b <= hi <= v.len(),
            trim_start(v@.subrange(lo as int, hi as int)) == v@.subrange(a as int, hi as int),
            trim_end(v@.subrange(a as int, hi as int)) == trim_end(
                v@.subrange(a as int, b as int),
            ),
        decreases b - a,
    {
        assert(v@.subrange(a as int, b as int).drop_last() =~= v@.subrange(a as int, b - 1));
        b -= 1;
    }
    (a, b)
}

/// Start of `strip_all(v[lo..hi], p)` inside `v`.
pub fn strip_all_range(v: &Vec<char>, lo: usize, hi: usize, p: &Vec<char>) -> (r: usize)
    requires
        lo <= hi <= v.len(),
        p.len() > 0,
    ensures
        lo <= r <= hi,
        v@.subrange(r as int, hi as int) == strip_all(v@.subrange(lo as int, hi as int), p@),
{
    let mut a = lo;
    while range_has_prefix(v, a, hi, p)
        invariant
            lo <= a <= hi <= v.len(),
            p.len() > 0,
            strip_all(v@.subrange(lo as int, hi as int), p@) == strip_all(
                v@.subrange(a as int, hi as int),
                p@,
            ),
        decreases hi - a,
    {
        assert(v@.subrange(a as int, hi as int).skip(p.len() as int) =~= v@.subrange(
            a + p.len(),
            hi as int,
        ));
        a += p.len();
    }
    a
}

/// Bounds of `trim_char(v[lo..hi], c)` inside `v`.
pub fn trim_char_range(v: &Vec<char>, lo: usize, hi: usize, c: char) -> (r: (usize, usize))
    requires
        lo <= hi <= v.len(),
    ensures
        lo <= r.0 <= r.1 <= hi,
        v@.subrange(r.0 as int, r.1 as int) == trim_char(v@.subrange(lo as int, hi as int), c),
{
    let mut a = lo;
    while a < hi && v[a] == c
        invariant
            lo <= a <= hi <= v.len(),
            strip_char_start(v@.subrange(lo as int, hi as int), c) == strip_char_start(
                v@.subrange(a as int, hi as int),
                c,
            ),
        decreases hi - a,
    {
        assert(v@.subrange(a as int, hi as int).drop_first() =~= v@.subrange(a + 1, hi as int));
        a += 1;
    }
    let mut b = hi;
    while b > a && v[b - 1] == c
        invariant
            lo <= a <= b <= hi <= v.len(),
            strip_char_start(v@.subrange(lo as int, hi as int), c) == v@.subrange(
                a as int,
                hi as int,
            ),
            strip_char_end(v@.subrange(a as int, hi as int), c) == strip_char_end(
                v@.subrange(a as int, b as int),
                c,
            ),
        decreases b - a,
    {
        assert(v@.subrange(a as int, b as int).drop_last() =~= v@.subrange(a as int, b - 1));
        b -= 1;
    }
    (a, b)
}

/// Bounds of `unquote(v[lo..hi])` inside `v`.
pub fn unquote_range(v: &Vec<char>, lo: usize, hi: usize) -> (r: (usize, usize))
    requires
        lo <= hi <= v.len(),
    ensures
        lo <= r.0 <= r.1 <= hi,
        v@.subrange(r.0 as int, r.1 as int) == unquote(v@.subrange(lo as int, hi as int)),
{
    let (a, b) = trim_char_range(v, lo, hi, '\'');
    trim_char_range(v, a, b, '"')
}

/// Relative index of the first occurrence of `p` in `v[lo..hi]` at or after
/// relative index `from`.
pub fn find_range(v: &Vec<char>, lo: usize, hi: usize, p: &Vec<char>, from: usize) -> (r: Option<
    usize,
>)
    requires
        lo <= hi <= v.len(),
        from <= hi - lo,
    ensures
        match r {
            Some(i) => find_from(v@.subrange(lo as int, hi as int), p@, from as int) == Some(
                i as int,
            ),
            None => find_from(v@.subrange(lo as int, hi as int), p@, from as int) is None,
        },
{
    let ghost s = v@.subrange(lo as int, hi as int);
    let mut i = from;
    while p.len() <= hi - lo - i
        invariant
            lo <= hi <= v.len(),
            from <= i <= hi - lo,
            s == v@.subrange(lo as int, hi as int),
            find_from(s, p@, from as int) == find_from(s, p@, i as int),
        decreases hi - lo - i,
    {
        if range_occurs_at(v, lo, hi, p, i) {
            return Some(i);
        }
        if i == hi - lo {
            assert(find_from(s, p@, i + 1) is None);
            return None;
        }
        i += 1;
    }
    None
}

/// End of the word starting at `v[a]`.
fn word_end(v: &Vec<char>, a: usize, hi: usize) -> (b: usize)
    requires
        a <= hi <= v.len(),
    ensures
        a <= b <= hi,
        b - a == word_len(v@.subrange(a as int, hi as int)),
        b == hi || is_ws(v@[b as int]),
{
    let mut b = a;
    while b < hi && !is_whitespace(v[b])
        invariant
            a <= b <= hi <= v.len(),
            word_len(v@.subrange(a as int, hi as int)) == (b - a) + word_len(
                v@.subrange(b as int, hi as int),
            ),
        decreases hi - b,
    {
        assert(v@.subrange(b as int, hi as int).drop_first() =~= v@.subrange(b + 1, hi as int));
        b += 1;
    }
    b
}

/// Bounds inside `v` of every piece of `words(v[lo..hi])`.
pub fn words_ranges(v: &Vec<char>, lo: usize, hi: usize) -> (r: Vec<(usize, usize)>)
    requires
        lo <= hi <= v.len(),
    ensures
        r@.len() == words(v@.subrange(lo as int, hi as int)).len(),
        forall|k: int|
            0 <= k < r@.len() ==> lo <= (#[trigger] r@[k]).0 <= r@[k].1 <= hi && v@.subrange(
                r@[k].0 as int,
                r@[k].1 as int,
            ) == words(v@.subrange(lo as int, hi as int))[k],
{
    let mut out: Vec<(usize, usize)> = Vec::new();
    let mut pos = lo;
    let ghost s = v@.subrange(lo as int, hi as int);
    let ghost f = |q: (usize, usize)| v@.subrange(q.0 as int, q.1 as int);
    while pos < hi
        invariant
            lo <= pos <= hi <= v.len(),
            s == v@.subrange(lo as int, hi as int),
            f == (|q: (usize, usize)| v@.subrange(q.0 as int, q.1 as int)),
            words(s) == out@.map_values(f) + words(v@.subrange(pos as int, hi as int)),
            forall|k: int|
                0 <= k < out@.len() ==> lo <= (#[trigger] out@[k]).0 <= out@[k].1 <= pos,
        decreases hi - pos,
    {
        let ghost rest = v@.subrange(pos as int, hi as int);
        if is_whitespace(v[pos]) {
            assert(rest.drop_first() =~= v@.subrange(pos + 1, hi as int));
            pos += 1;
        } else {
            let b = word_end(v, pos, hi);
            proof {
                lemma_word_len(rest);
                assert(rest.take((b - pos) as int) =~= v@.subrange(pos as int, b as int));
                assert(rest.skip((b - pos) as int) =~= v@.subrange(b as int, hi as int));
                assert(out@.push((pos, b)).map_values(f) =~= out@.map_values(f) + seq![
                    v@.subrange(pos as int, b as int),
                ]);
                assert(words(s) =~= out@.push((pos, b)).map_values(f) + words(
                    v@.subrange(b as int, hi as int),
                ));
            }
            out.push((pos, b));
            pos = b;
        }
    }
    proof {
        assert(words(v@.subrange(pos as int, hi as int)) =~= Seq::<Seq<char>>::empty());
        assert(words(s) =~= out@.map_values(f));
        assert forall|k: int| 0 <= k < out@.len() implies v@.subrange(
            (#[trigger] out@[k]).0 as int,
            out@[k].1 as int,
        ) == words(s)[k] by {
            assert(words(s)[k] == out@.map_values(f)[k]);
        }
    }
    out
}

/// Bounds of `first_word(v[lo..hi])` inside `v`.
pub fn first_word_range(v: &Vec<char>, lo: usize, hi: usize) -> (r: (usize, usize))
    requires
        lo <= hi <= v.len(),
    ensures
        lo <= r.0 <= r.1 <= hi,
        v@.subrange(r.0 as int, r.1 as int) == first_word(v@.subrange(lo as int, hi as int)),
{
    let mut pos = lo;
    let ghost s = v@.subrange(lo as int, hi as int);
    while pos < hi && is_whitespace(v[pos])
        invariant
            lo <= pos <= hi <= v.len(),
            s == v@.subrange(lo as int, hi as int),
            words(s) == words(v@.subrange(pos as int, hi as int)),
        decreases hi - pos,
    {
        assert(v@.subrange(pos as int, hi as int).drop_first() =~= v@.subrange(
            pos + 1,
            hi as int,
        ));
        pos += 1;
    }
    if pos == hi {
        assert(words(v@.subrange(pos as int, hi as int)) =~= Seq::<Seq<char>>::empty());
        return (hi, hi);
    }
    let b = word_end(v, pos, hi);
    proof {
        let rest = v@.subrange(pos as int, hi as int);
        lemma_word_len(rest);
        assert(rest.take((b - pos) as int) =~= v@.subrange(pos as int, b as int));
    }
    (pos, b)
}

/// Number of bytes in the UTF-8 encoding of `c`.
pub open spec fn char_width(c: char) -> nat {
    let u = c as u32;
    if u < 0x80 {
        1
    } else if u < 0x800 {
        2
    } else if u < 0x10000 {
        3
    } else {
        4
    }
}

/// Number of bytes in the UTF-8 encoding of `s`.
pub open spec fn utf8_len(s: Seq<char>) -> nat
    decreases s.len(),
{
    if s.len() == 0 {
        0
    } else {
        char_width(s[0]) + utf8_len(s.drop_first())
    }
}

pub fn width_of(c: char) -> (r: u32)
    ensures
        r == char_width(c),
{
    let u = c as u32;
    if u < 0x80 {
        1
    } else if u < 0x800 {
        2
    } else if u < 0x10000 {
        3
    } else {
        4
    }
}

pub proof fn lemma_utf8_len_ge_len(s: Seq<char>)
    ensures
        utf8_len(s) >= s.len(),
    decreases s.len(),
{
    if s.len() > 0 {
        lemma_utf8_len_ge_len(s.drop_first());
    }
}

pub proof fn lemma_utf8_len_concat(a: Seq<char>, b: Seq<char>)
    ensures
        utf8_len(a + b) == utf8_len(a) + utf8_len(b),
    decreases a.len(),
{
    if a.len() == 0 {
        assert(a + b =~= b);
    } else {
        lemma_utf8_len_concat(a.drop_first(), b);
        assert((a + b).drop_first() =~= a.drop_first() + b);
    }
}

pub proof fn lemma_utf8_len_push(a: Seq<char>, c: char)
    ensures
        utf8_len(a.push(c)) == utf8_len(a) + char_width(c),
{
    lemma_utf8_len_concat(a, seq![c]);
    assert(a.push(c) =~= a + seq![c]);
    assert(seq![c].drop_first() =~= Seq::<char>::empty());
    assert(utf8_len(seq![c]) == char_width(seq![c][0]) + utf8_len(seq![c].drop_first()));
}

pub proof fn lemma_utf8_len_prefix(s: Seq<char>, i: int, j: int)
    requires
        0 <= i <= j <= s.len(),
    ensures
        utf8_len(s.take(i)) <= utf8_len(s.take(j)),
        utf8_len(s.take(j)) <= utf8_len(s),
{
    lemma_utf8_len_concat(s.take(i), s.subrange(i, j));
    assert(s.take(i) + s.subrange(i, j) =~= s.take(j));
    lemma_utf8_len_concat(s.take(j), s.skip(j));
    assert(s.take(j) + s.skip(j) =~= s);
}

pub proof fn lemma_utf8_len_encode(s: Seq<char>)
    ensures
        utf8_len(s) == vstd::utf8::encode_utf8(s).len(),
    decreases s.len(),
{
    if s.len() > 0 {
        lemma_utf8_len_encode(s.drop_first());
        vstd::utf8::char_is_scalar(s[0]);
    }
}

/// Whether `utf8_len(v[lo..hi]) > limit`.
pub fn utf8_len_exceeds(v: &Vec<char>, lo: usize, hi: usize, limit: u32) -> (r: bool)
    requires
        lo <= hi <= v.len(),
    ensures
        r == (utf8_len(v@.subrange(lo as int, hi as int)) > limit),
{
    let mut total: u32 = 0;
    let mut i = lo;
    while i < hi
        invariant
            lo <= i <= hi <= v.len(),
            total == utf8_len(v@.subrange(lo as int, i as int)),
            total <= limit,
        decreases hi - i,
    {
        let w = width_of(v[i]);
        proof {
            assert(v@.subrange(lo as int, i + 1) =~= v@.subrange(lo as int, i as int).push(v@[i as int]));
            lemma_utf8_len_push(v@.subrange(lo as int, i as int), v@[i as int]);
        }
        if w > limit - total {
            proof {
                lemma_utf8_len_prefix(v@.subrange(lo as int, hi as int), i + 1 - lo, hi - lo);
                assert(v@.subrange(lo as int, hi as int).take(i + 1 - lo) =~= v@.subrange(lo as int, i + 1));
                assert(v@.subrange(lo as int, hi as int).take(hi - lo) =~= v@.subrange(lo as int, hi as int));
            }
            return true;
        }
        total = total + w;
        i += 1;
    }
    false
}

/// The decimal digit for `d < 10`.
pub open spec fn digit(d: nat) -> char {
    if d == 0 {
        '0'
    } else if d == 1 {
        '1'
    } else if d == 2 {
        '2'
    } else if d == 3 {
        '3'
    } else if d == 4 {
        '4'
    } else if d == 5 {
        '5'
    } else if d == 6 {
        '6'
    } else if d == 7 {
        '7'
    } else if d == 8 {
        '8'
    } else {
        '9'
    }
}

/// Decimal notation of `n`, as `format!("{}", n)` writes it.
pub open spec fn decimal(n: nat) -> Seq<char>
    decreases n,
{
    if n < 10 {
        seq![digit(n)]
    } else {
        decimal(n / 10).push(digit(n % 10))
    }
}

fn digit_of(d: u64) -> (r: char)
    requires
        d < 10,
    ensures
        r == digit(d as nat),
{
    if d == 0 {
        '0'
    } else if d == 1 {
        '1'
    } else if d == 2 {
        '2'
    } else if d == 3 {
        '3'
    } else if d == 4 {
        '4'
    } else if d == 5 {
        '5'
    } else if d == 6 {
        '6'
    } else if d == 7 {
        '7'
    } else if d == 8 {
        '8'
    } else {
        '9'
    }
}

/// Appends the decimal notation of `n`.
pub fn push_decimal(s: &mut String, n: u64)
    ensures
        final(s)@ == old(s)@ + decimal(n as nat),
    decreases n,
{
    if n >= 10 {
        push_decimal(s, n / 10);
    }
    s.push(digit_of(n % 10));
    assert(s@ =~= old(s)@ + decimal(n as nat));
}

/// Index of the first occurrence of `p` in `v` at or after `from`.
pub fn find_in(v: &Vec<char>, p: &Vec<char>, from: usize) -> (r: Option<usize>)
    requires
        from <= v.len(),
    ensures
        match r {
            Some(i) => find_from(v@, p@, from as int) == Some(i as int) && i + p.len() <= v.len(),
            None => find_from(v@, p@, from as int) is None,
        },
{
    let mut i = from;
    while p.len() <= v.len() - i
        invariant
            from <= i <= v.len(),
            find_from(v@, p@, from as int) == find_from(v@, p@, i as int),
        decreases v.len() - i,
    {
        if range_eq(v, i, i + p.len(), p) {
            return Some(i);
        }
        if i == v.len() {
            assert(find_from(v@, p@, i + 1) is None);
            return None;
        }
        i += 1;
    }
    None
}

} // verus!
