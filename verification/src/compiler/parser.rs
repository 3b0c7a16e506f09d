//! The template parser: turns the lexer's tokens into a syntax tree, with
//! diagnostics for what it recovered from.
use vstd::prelude::*;
use crate::compiler::ast::{
    bindings_view, elifs_view, node_view, nodes_view, opt_string_view, AstNode, Binding,
    BindingModel, CaptureAsNode, CsrftokenNode, CycleNode, DebugNode, ElifBranch, ElifModel,
    ExtendsNode, FirstofNode, GetMediaPrefixNode, GetStaticPrefixNode, LoadNode, LoremNode,
    NodeModel, NowNode, PluralNode, QuerystringNode, RegroupNode, ResetcycleNode, StaticNode,
    TemplateTagNode, TextNode, TransNode, TranslateNode, WidthratioNode, ast_filters_view,
    opt_nodes_view, AutoescapeNode, BlockNode, BlocktranslateNode, CacheNode, CommentBlockNode,
    ForNode, IfNode, IfchangedNode, IncludeNode, JsonScriptNode, LanguageNode, LocalizeNode,
    LocaltimeNode, SpacelessNode, TimezoneNode, UtcNode, VariableNode, VerbatimNode, WithNode,
    FilterBlockNode,
};
use crate::compiler::error::{lex_error_text, Diagnostic, DiagnosticModel, ParseError, Severity};
use crate::compiler::lexer::{
    self, lemma_lex_count, tokenize_spec, tokens_view, FilterModel, LexOutcome, Lexer, Token,
    TokenModel,
};
use crate::compiler::syntax::{
    after, as_name, PARSE_ITERATIONS_MAX, as_pair_name, bindings_from, bindings_of, capture_node, close_quote,
    cycle_from, cycle_node, depth_message, extends_path, is_blank, is_only_word, is_quote,
    key_values, leaf_node, lemma_close_quote, nth_or, querystring_node, scan_name,
    scan_unquoted, scan_value, scan_word, skip_blank, translate_node, adv, before_bar,
    block_loop, body_node, comment_loop, deeper, depth_exceeded, done, for_parts, if_add,
    if_loop, include_parts, is_body_tag, is_end, is_start, is_super, json_filter_from, moved,
    p_block, p_comment, p_for, p_if, p_ifchanged, p_node, p_tag, p_until, path_end, shallower,
    top_loop, two_loop, unstuck, until_loop, variable_node, warn, error, note, IfParts, PState,
    Parsed, NESTING_DEPTH_MAX, parse_tokens,
};
use crate::text::{
    append_str, chars_of, chars_of_string, find_in, push_decimal, string_of_all,
    strip_all_range, trim_range, unquote_range, words_ranges, contains, find, split,
    strip_all, trim, trim_start, unquote, words,
};

verus! {

/// The nodes of a parsed template and the diagnostics collected on the way.
pub struct ParseOutput {
    pub nodes: Vec<AstNode>,
    pub diagnostics: Vec<Diagnostic>,
}

pub open spec fn opt_node_view(o: Option<AstNode>) -> Option<NodeModel> {
    match o {
        Some(n) => Some(node_view(n)),
        None => None,
    }
}

pub open spec fn diags_view(v: Seq<Diagnostic>) -> Seq<DiagnosticModel> {
    v.map_values(|d: Diagnostic| d@)
}

pub open spec fn seqs_view(v: Seq<Vec<char>>) -> Seq<Seq<char>> {
    v.map_values(|w: Vec<char>| w@)
}

/// The error the parser reports when nesting is too deep.
pub open spec fn is_depth_error(e: ParseError) -> bool {
    e matches ParseError::Generic(m) && m@ == depth_message()
}

pub proof fn lemma_nodes_view_push(v: Seq<AstNode>, n: AstNode)
    ensures
        nodes_view(v.push(n)) == nodes_view(v).push(node_view(n)),
{
    assert(v.push(n).drop_last() =~= v);
}

pub proof fn lemma_elifs_view_push(v: Seq<ElifBranch>, e: ElifBranch)
    ensures
        elifs_view(v.push(e)) == elifs_view(v).push(
            ElifModel { condition: e.condition@, body: nodes_view(e.body@) },
        ),
{
    assert(v.push(e).drop_last() =~= v);
}

// ---------------------------------------------------------------------------
// Character-level helpers
// ---------------------------------------------------------------------------
fn slice(v: &Vec<char>, lo: usize, hi: usize) -> (r: Vec<char>)
    requires
        lo <= hi <= v.len(),
    ensures
        r@ == v@.subrange(lo as int, hi as int),
{
    let mut out: Vec<char> = Vec::new();
    let mut i = lo;
    while i < hi
        invariant
            lo <= i <= hi <= v.len(),
            out@ == v@.subrange(lo as int, i as int),
        decreases hi - i,
    {
        out.push(v[i]);
        i += 1;
        assert(out@ =~= v@.subrange(lo as int, i as int));
    }
    out
}

fn copy_chars(v: &Vec<char>) -> (r: Vec<char>)
    ensures
        r@ == v@,
{
    let r = slice(v, 0, v.len());
    assert(v@.subrange(0, v@.len() as int) =~= v@);
    r
}

/// A string holding the literal.
fn lit(s: &str) -> (r: String)
    ensures
        r@ == s@,
{
    let mut r = String::new();
    append_str(&mut r, s);
    assert(r@ =~= s@);
    r
}

/// `strip_all(c, keyword)`.
fn strip_chars(c: &Vec<char>, keyword: &str) -> (r: Vec<char>)
    ensures
        r@ == strip_all(c@, keyword@),
{
    let p = chars_of(keyword);
    assert(c@.subrange(0, c@.len() as int) =~= c@);
    if p.len() > 0 {
        let a = strip_all_range(c, 0, c.len(), &p);
        slice(c, a, c.len())
    } else {
        copy_chars(c)
    }
}

/// `after(c, keyword)`: the argument text of a tag.
fn after_chars(c: &Vec<char>, keyword: &str) -> (r: Vec<char>)
    ensures
        r@ == after(c@, keyword@),
{
    let p = chars_of(keyword);
    assert(c@.subrange(0, c@.len() as int) =~= c@);
    let a = if p.len() > 0 {
        strip_all_range(c, 0, c.len(), &p)
    } else {
        0
    };
    let (x, y) = trim_range(c, a, c.len());
    slice(c, x, y)
}

fn trim_start_chars(c: &Vec<char>) -> (r: Vec<char>)
    ensures
        r@ == trim_start(c@),
{
    let mut a: usize = 0;
    assert(c@.subrange(0, c@.len() as int) =~= c@);
    while a < c.len() && crate::text::is_whitespace(c[a])
        invariant
            a <= c.len(),
            trim_start(c@) == trim_start(c@.subrange(a as int, c@.len() as int)),
        decreases c.len() - a,
    {
        assert(c@.subrange(a as int, c@.len() as int).drop_first() =~= c@.subrange(
            a + 1,
            c@.len() as int,
        ));
        a += 1;
    }
    slice(c, a, c.len())
}

fn trim_chars(c: &Vec<char>) -> (r: Vec<char>)
    ensures
        r@ == trim(c@),
{
    assert(c@.subrange(0, c@.len() as int) =~= c@);
    let (x, y) = trim_range(c, 0, c.len());
    slice(c, x, y)
}

fn unquote_chars(c: &Vec<char>) -> (r: Vec<char>)
    ensures
        r@ == unquote(c@),
{
    assert(c@.subrange(0, c@.len() as int) =~= c@);
    let (x, y) = unquote_range(c, 0, c.len());
    slice(c, x, y)
}

/// `words(v)`.
fn words_of(v: &Vec<char>) -> (r: Vec<Vec<char>>)
    ensures
        seqs_view(r@) == words(v@),
{
    assert(v@.subrange(0, v@.len() as int) =~= v@);
    let ranges = words_ranges(v, 0, v.len());
    let mut out: Vec<Vec<char>> = Vec::new();
    let mut k: usize = 0;
    while k < ranges.len()
        invariant
            k <= ranges.len(),
            ranges@.len() == words(v@).len(),
            forall|j: int|
                0 <= j < ranges@.len() ==> 0 <= (#[trigger] ranges@[j]).0 <= ranges@[j].1
                    <= v.len() && v@.subrange(ranges@[j].0 as int, ranges@[j].1 as int) == words(
                    v@,
                )[j],
            seqs_view(out@) == words(v@).take(k as int),
        decreases ranges.len() - k,
    {
        let (a, b) = ranges[k];
        let w = slice(v, a, b);
        assert(w@ == words(v@)[k as int]);
        let ghost before = seqs_view(out@);
        out.push(w);
        assert(seqs_view(out@) =~= before.push(w@));
        k += 1;
        assert(seqs_view(out@) =~= words(v@).take(k as int));
    }
    assert(words(v@).take(k as int) =~= words(v@));
    out
}

fn strings_of(ws: &Vec<Vec<char>>) -> (r: Vec<String>)
    ensures
        lexer::strings_view(r@) == seqs_view(ws@),
{
    let mut out: Vec<String> = Vec::new();
    let mut k: usize = 0;
    while k < ws.len()
        invariant
            k <= ws.len(),
            lexer::strings_view(out@) == seqs_view(ws@).take(k as int),
        decreases ws.len() - k,
    {
        let t = string_of_all(&ws[k]);
        let ghost before = lexer::strings_view(out@);
        out.push(t);
        assert(lexer::strings_view(out@) =~= before.push(t@));
        assert(seqs_view(ws@)[k as int] == ws@[k as int]@);
        k += 1;
        assert(lexer::strings_view(out@) =~= seqs_view(ws@).take(k as int));
    }
    assert(seqs_view(ws@).take(k as int) =~= seqs_view(ws@));
    out
}

/// `split(v, p)`.
pub(crate) fn split_of(v: &Vec<char>, p: &str) -> (r: Vec<Vec<char>>)
    ensures
        seqs_view(r@) == split(v@, p@),
{
    let pat = chars_of(p);
    let mut out: Vec<Vec<char>> = Vec::new();
    let mut rest = copy_chars(v);
    if pat.len() == 0 {
        out.push(rest);
        assert(seqs_view(out@) =~= split(v@, p@));
        return out;
    }
    assert(seqs_view(out@) + split(rest@, pat@) =~= split(v@, pat@));
    loop
        invariant
            pat@ == p@,
            pat.len() > 0,
            seqs_view(out@) + split(rest@, pat@) == split(v@, pat@),
        decreases rest.len(),
    {
        match find_in(&rest, &pat, 0) {
            None => {
                let ghost before = seqs_view(out@);
                out.push(rest);
                assert(seqs_view(out@) =~= before + split(rest@, pat@));
                return out;
            },
            Some(i) => {
                let ghost before = seqs_view(out@);
                let ghost r0 = rest@;
                let piece = slice(&rest, 0, i);
                let tail = slice(&rest, i + pat.len(), rest.len());
                out.push(piece);
                rest = tail;
                assert(r0.take(i as int) =~= piece@);
                assert(r0.skip(i + pat.len()) =~= rest@);
                assert(seqs_view(out@) =~= before.push(piece@));
                assert(split(r0, pat@) == seq![piece@] + split(rest@, pat@));
                assert(seqs_view(out@) + split(rest@, pat@) =~= before + split(r0, pat@));
            },
        }
    }
}

// ---------------------------------------------------------------------------
// Bindings
// ---------------------------------------------------------------------------
pub proof fn lemma_skip_blank(s: Seq<char>, i: int)
    requires
        0 <= i <= s.len(),
    ensures
        i <= skip_blank(s, i) <= s.len(),
        skip_blank(s, i) < s.len() ==> !is_blank(s[skip_blank(s, i)]),
    decreases s.len() - i,
{
    if i < s.len() && is_blank(s[i]) {
        lemma_skip_blank(s, i + 1);
    }
}

pub proof fn lemma_scan_word(s: Seq<char>, i: int)
    requires
        0 <= i <= s.len(),
    ensures
        i <= scan_word(s, i) <= s.len(),
    decreases s.len() - i,
{
    if i < s.len() && !is_blank(s[i]) {
        lemma_scan_word(s, i + 1);
    }
}

pub proof fn lemma_scan_name(s: Seq<char>, i: int)
    requires
        0 <= i <= s.len(),
    ensures
        i <= scan_name(s, i) <= s.len(),
    decreases s.len() - i,
{
    if i < s.len() && !is_blank(s[i]) && s[i] != '=' {
        lemma_scan_name(s, i + 1);
    }
}

pub proof fn lemma_scan_unquoted(s: Seq<char>, i: int)
    requires
        0 <= i <= s.len(),
    ensures
        i <= scan_unquoted(s, i) <= s.len(),
    decreases s.len() - i,
{
    if i < s.len() && !is_blank(s[i]) {
        if is_quote(s[i]) {
            lemma_close_quote(s, i + 1, s[i]);
            lemma_scan_unquoted(s, close_quote(s, i + 1, s[i]));
        } else {
            lemma_scan_unquoted(s, i + 1);
        }
    }
}

fn is_blank_char(c: char) -> (r: bool)
    ensures
        r == is_blank(c),
{
    c == ' ' || c == '\t'
}

fn is_quote_char(c: char) -> (r: bool)
    ensures
        r == is_quote(c),
{
    c == '\'' || c == '"'
}

fn skip_blank_at(s: &Vec<char>, i: usize) -> (r: usize)
    requires
        i <= s.len(),
    ensures
        r == skip_blank(s@, i as int),
        i <= r <= s.len(),
{
    let mut j = i;
    while j < s.len() && is_blank_char(s[j])
        invariant
            i <= j <= s.len(),
            skip_blank(s@, i as int) == skip_blank(s@, j as int),
        decreases s.len() - j,
    {
        j += 1;
    }
    j
}

fn scan_word_at(s: &Vec<char>, i: usize) -> (r: usize)
    requires
        i <= s.len(),
    ensures
        r == scan_word(s@, i as int),
        i <= r <= s.len(),
{
    let mut j = i;
    while j < s.len() && !is_blank_char(s[j])
        invariant
            i <= j <= s.len(),
            scan_word(s@, i as int) == scan_word(s@, j as int),
        decreases s.len() - j,
    {
        j += 1;
    }
    j
}

fn scan_name_at(s: &Vec<char>, i: usize) -> (r: usize)
    requires
        i <= s.len(),
    ensures
        r == scan_name(s@, i as int),
        i <= r <= s.len(),
{
    let mut j = i;
    while j < s.len() && !is_blank_char(s[j]) && s[j] != '='
        invariant
            i <= j <= s.len(),
            scan_name(s@, i as int) == scan_name(s@, j as int),
        decreases s.len() - j,
    {
        j += 1;
    }
    j
}

fn close_quote_at(s: &Vec<char>, i: usize, q: char) -> (r: usize)
    requires
        i <= s.len(),
    ensures
        r == close_quote(s@, i as int, q),
        i <= r <= s.len(),
{
    let mut j = i;
    while j < s.len() && s[j] != q
        invariant
            i <= j <= s.len(),
            close_quote(s@, i as int, q) == close_quote(s@, j as int, q),
        decreases s.len() - j,
    {
        j += 1;
    }
    if j < s.len() {
        j + 1
    } else {
        j
    }
}

fn scan_value_at(s: &Vec<char>, i: usize) -> (r: usize)
    requires
        i <= s.len(),
    ensures
        r == scan_value(s@, i as int),
        i <= r <= s.len(),
{
    if i < s.len() && is_quote_char(s[i]) {
        return close_quote_at(s, i + 1, s[i]);
    }
    let mut j = i;
    while j < s.len() && !is_blank_char(s[j])
        invariant
            i <= j <= s.len(),
            scan_unquoted(s@, i as int) == scan_unquoted(s@, j as int),
        decreases s.len() - j,
    {
        if is_quote_char(s[j]) {
            j = close_quote_at(s, j + 1, s[j]);
        } else {
            j += 1;
        }
    }
    j
}

fn is_only_at(s: &Vec<char>, i: usize) -> (r: bool)
    requires
        i <= s.len(),
    ensures
        r == is_only_word(s@, i as int),
{
    if s.len() - i < 4 {
        return false;
    }
    let w = slice(s, i, i + 4);
    if !crate::text::eq_lit(&w, "only") {
        return false;
    }
    i + 4 == s.len() || is_blank_char(s[i + 4])
}

/// The `name=value` bindings of `s` and whether an `only` word ends them.
fn parse_bindings(s: &Vec<char>) -> (r: (Vec<Binding>, bool))
    requires
        bindings_of(s@) is Some,
    ensures
        bindings_of(s@) == Some((bindings_view(r.0@), r.1)),
{
    let length = s.len();
    let mut bindings: Vec<Binding> = Vec::new();
    let mut position: usize = 0;
    let mut iterations: u32 = 0;
    assert(bindings_view(bindings@) =~= Seq::<BindingModel>::empty());
    while position < length
        invariant
            length == s.len(),
            position <= length,
            bindings_of(s@) is Some,
            bindings_of(s@) == bindings_from(
                s@,
                position as int,
                iterations as nat,
                bindings_view(bindings@),
            ),
        decreases length - position,
    {
        let ghost pos = position as int;
        let ghost acc = bindings_view(bindings@);
        iterations += 1;
        let p1 = skip_blank_at(s, position);
        if p1 >= length {
            return (bindings, false);
        }
        if is_only_at(s, p1) {
            return (bindings, true);
        }
        let p2 = scan_name_at(s, p1);
        if p2 >= length || s[p2] != '=' {
            let p3 = scan_word_at(s, p2);
            proof {
                lemma_skip_blank(s@, pos);
                lemma_scan_name(s@, p1 + 1);
                assert(!is_blank(s@[p1 as int]));
                assert(p2 > p1);
            }
            position = p3;
            continue;
        }
        let name = slice(s, p1, p2);
        if p2 + 1 >= length {
            return (bindings, false);
        }
        let p5 = scan_value_at(s, p2 + 1);
        let value = slice(s, p2 + 1, p5);
        bindings.push(Binding { name: string_of_all(&name), value: string_of_all(&value) });
        assert(bindings_view(bindings@) =~= acc.push(
            BindingModel { name: s@.subrange(p1 as int, p2 as int), value: s@.subrange(p2 + 1, p5 as int) },
        ));
        position = p5;
    }
    (bindings, false)
}

// ---------------------------------------------------------------------------
// Nodes of tags without a body
// ---------------------------------------------------------------------------
fn string_of_chars(v: &Vec<char>) -> (r: String)
    ensures
        r@ == v@,
{
    string_of_all(v)
}

/// `nth_or(parts, i, default)`.
fn nth_or_chars(parts: &Vec<Vec<char>>, i: usize, default: &str) -> (r: String)
    ensures
        r@ == nth_or(seqs_view(parts@), i as int, default@),
{
    if i < parts.len() {
        string_of_chars(&parts[i])
    } else {
        lit(default)
    }
}

/// `nth_or(parts, i, "")`.
fn nth_or_empty(parts: &Vec<Vec<char>>, i: usize) -> (r: String)
    ensures
        r@ == nth_or(seqs_view(parts@), i as int, seq![]),
{
    if i < parts.len() {
        string_of_chars(&parts[i])
    } else {
        String::new()
    }
}

fn parse_load(c: &Vec<char>, raw: &String) -> (r: AstNode)
    ensures
        node_view(r) == (NodeModel::Load { raw: raw@, libraries: words(strip_all(c@, "load"@)) }),
{
    let libraries = strings_of(&words_of(&strip_chars(c, "load")));
    AstNode::Load(LoadNode { raw: raw.clone(), libraries })
}

fn parse_static(c: &Vec<char>, raw: &String) -> (r: AstNode)
    ensures
        node_view(r) == (NodeModel::Static { raw: raw@, path: unquote(after(c@, "static"@)) }),
{
    let path = string_of_chars(&unquote_chars(&after_chars(c, "static")));
    AstNode::Static(StaticNode { raw: raw.clone(), path })
}

fn parse_trans(c: &Vec<char>, raw: &String) -> (r: AstNode)
    ensures
        node_view(r) == (NodeModel::Trans { raw: raw@, message: unquote(after(c@, "trans"@)) }),
{
    let message = string_of_chars(&unquote_chars(&after_chars(c, "trans")));
    AstNode::Trans(TransNode { raw: raw.clone(), message })
}

fn parse_templatetag(c: &Vec<char>, raw: &String) -> (r: AstNode)
    ensures
        node_view(r) == (NodeModel::TemplateTag {
            raw: raw@,
            format: unquote(after(c@, "templatetag"@)),
        }),
{
    let format = string_of_chars(&unquote_chars(&after_chars(c, "templatetag")));
    AstNode::TemplateTag(TemplateTagNode { raw: raw.clone(), format })
}

fn parse_now(c: &Vec<char>, raw: &String) -> (r: AstNode)
    ensures
        node_view(r) == (NodeModel::Now { raw: raw@, format: unquote(after(c@, "now"@)) }),
{
    let format = string_of_chars(&unquote_chars(&after_chars(c, "now")));
    AstNode::Now(NowNode { raw: raw.clone(), format })
}

fn parse_cycle(c: &Vec<char>, raw: &String) -> (r: AstNode)
    ensures
        node_view(r) == cycle_node(c@, raw@),
{
    let parts = words_of(&strip_chars(c, "cycle"));
    let ghost ps = seqs_view(parts@);
    let mut values: Vec<String> = Vec::new();
    let mut as_variable: Option<String> = None;
    let mut output = true;
    let mut index: usize = 0;
    assert(lexer::strings_view(values@) =~= Seq::<Seq<char>>::empty());
    while index < parts.len()
        invariant
            ps == seqs_view(parts@),
            index <= parts.len(),
            cycle_from(ps, 0, seq![], None, true) == cycle_from(
                ps,
                index as int,
                lexer::strings_view(values@),
                opt_string_view(as_variable),
                output,
            ),
        decreases parts.len() - index,
    {
        assert(ps[index as int] == parts@[index as int]@);
        if crate::text::eq_lit(&parts[index], "as") && index + 1 < parts.len() {
            assert(ps[index + 1] == parts@[index + 1]@);
            as_variable = Some(string_of_chars(&parts[index + 1]));
            output = false;
            index += 2;
        } else {
            let v = string_of_chars(&unquote_chars(&parts[index]));
            let ghost before = lexer::strings_view(values@);
            values.push(v);
            assert(lexer::strings_view(values@) =~= before.push(v@));
            index += 1;
        }
    }
    AstNode::Cycle(Box::new(CycleNode { raw: raw.clone(), values, as_variable, output }))
}

fn parse_firstof(c: &Vec<char>, raw: &String) -> (r: AstNode)
    ensures
        node_view(r) == (NodeModel::Firstof {
            raw: raw@,
            variables: words(strip_all(c@, "firstof"@)).map_values(|w: Seq<char>| unquote(w)),
        }),
{
    let parts = words_of(&strip_chars(c, "firstof"));
    let ghost ws = words(strip_all(c@, "firstof"@));
    let ghost f = |w: Seq<char>| unquote(w);
    let mut variables: Vec<String> = Vec::new();
    let mut k: usize = 0;
    while k < parts.len()
        invariant
            k <= parts.len(),
            seqs_view(parts@) == ws,
            f == (|w: Seq<char>| unquote(w)),
            lexer::strings_view(variables@) == ws.map_values(f).take(k as int),
        decreases parts.len() - k,
    {
        let v = string_of_chars(&unquote_chars(&parts[k]));
        assert(ws[k as int] == parts@[k as int]@);
        let ghost before = lexer::strings_view(variables@);
        variables.push(v);
        assert(lexer::strings_view(variables@) =~= before.push(v@));
        assert(ws.map_values(f)[k as int] == unquote(ws[k as int]));
        assert(lexer::strings_view(variables@) =~= ws.map_values(f).take(k + 1));
        k += 1;
    }
    assert(ws.map_values(f).take(k as int) =~= ws.map_values(f));
    AstNode::Firstof(FirstofNode { raw: raw.clone(), variables })
}

fn parse_widthratio(c: &Vec<char>, raw: &String) -> (r: AstNode)
    ensures
        node_view(r) == ({
            let parts = words(strip_all(c@, "widthratio"@));
            NodeModel::Widthratio {
                raw: raw@,
                value: nth_or(parts, 0, "0"@),
                maximum: nth_or(parts, 1, "0"@),
                divisor: nth_or(parts, 2, "100"@),
            }
        }),
{
    let parts = words_of(&strip_chars(c, "widthratio"));
    let value = nth_or_chars(&parts, 0, "0");
    let maximum = nth_or_chars(&parts, 1, "0");
    let divisor = nth_or_chars(&parts, 2, "100");
    AstNode::Widthratio(Box::new(WidthratioNode { raw: raw.clone(), value, maximum, divisor }))
}

/// `capture_node(tag, c, raw)`.
fn capture(tag: &str, c: &Vec<char>, raw: &String) -> (r: Option<AstNode>)
    ensures
        match r {
            Some(n) => capture_node(tag@, c@, raw@) == Some(node_view(n)),
            None => capture_node(tag@, c@, raw@) is None,
        },
{
    let parts = split_of(c, " as ");
    if parts.len() == 2 {
        assert(seqs_view(parts@)[0] == parts@[0]@);
        assert(seqs_view(parts@)[1] == parts@[1]@);
        let content = string_of_chars(&trim_chars(&parts[0]));
        let variable_name = string_of_chars(&trim_chars(&parts[1]));
        Some(
            AstNode::CaptureAs(
                Box::new(CaptureAsNode { raw: raw.clone(), tag: lit(tag), content, variable_name }),
            ),
        )
    } else {
        None
    }
}

fn parse_url(c: &Vec<char>, raw: &String) -> (r: AstNode)
    ensures
        node_view(r) == match capture_node("url"@, c@, raw@) {
            Some(n) => n,
            None => NodeModel::Text { content: raw@ },
        },
{
    match capture("url", c, raw) {
        Some(n) => n,
        None => AstNode::Text(TextNode { content: raw.clone() }),
    }
}

fn parse_static_capture(c: &Vec<char>, raw: &String) -> (r: AstNode)
    ensures
        node_view(r) == match capture_node("static"@, c@, raw@) {
            Some(n) => n,
            None => NodeModel::Static { raw: raw@, path: unquote(after(c@, "static"@)) },
        },
{
    match capture("static", c, raw) {
        Some(n) => n,
        None => parse_static(c, raw),
    }
}

/// `as_name(c)`.
fn as_name_of(c: &Vec<char>) -> (r: Option<String>)
    ensures
        opt_string_view(r) == as_name(c@),
{
    let pat = chars_of(" as ");
    match find_in(c, &pat, 0) {
        None => None,
        Some(_) => {
            let parts = split_of(c, " as ");
            if 1 < parts.len() {
                assert(seqs_view(parts@)[1] == parts@[1]@);
                Some(string_of_chars(&trim_chars(&parts[1])))
            } else {
                Some(String::new())
            }
        },
    }
}

/// `as_pair_name(c)`.
fn as_pair_name_of(c: &Vec<char>) -> (r: Option<String>)
    ensures
        opt_string_view(r) == as_pair_name(c@),
{
    let parts = split_of(c, " as ");
    if parts.len() == 2 {
        assert(seqs_view(parts@)[1] == parts@[1]@);
        Some(string_of_chars(&trim_chars(&parts[1])))
    } else {
        None
    }
}

fn parse_get_static_prefix(c: &Vec<char>, raw: &String) -> (r: AstNode)
    ensures
        node_view(r) == (NodeModel::GetStaticPrefix { raw: raw@, variable_name: as_name(c@) }),
{
    AstNode::GetStaticPrefix(
        GetStaticPrefixNode { raw: raw.clone(), variable_name: as_name_of(c) },
    )
}

fn parse_get_media_prefix(c: &Vec<char>, raw: &String) -> (r: AstNode)
    ensures
        node_view(r) == (NodeModel::GetMediaPrefix { raw: raw@, variable_name: as_name(c@) }),
{
    AstNode::GetMediaPrefix(GetMediaPrefixNode { raw: raw.clone(), variable_name: as_name_of(c) })
}

fn parse_resetcycle(c: &Vec<char>, raw: &String) -> (r: AstNode)
    ensures
        node_view(r) == (NodeModel::Resetcycle { raw: raw@, name: after(c@, "resetcycle"@) }),
{
    AstNode::Resetcycle(
        ResetcycleNode { raw: raw.clone(), name: string_of_chars(&after_chars(c, "resetcycle")) },
    )
}

fn parse_lorem(c: &Vec<char>, raw: &String) -> (r: AstNode)
    ensures
        node_view(r) == ({
            let parts = words(strip_all(c@, "lorem"@));
            NodeModel::Lorem {
                raw: raw@,
                count: nth_or(parts, 0, "1"@),
                method: nth_or(parts, 1, "i"@),
                random: parts.len() > 2 && parts[2] == "r"@,
            }
        }),
{
    let parts = words_of(&strip_chars(c, "lorem"));
    let count = nth_or_chars(&parts, 0, "1");
    let method = nth_or_chars(&parts, 1, "i");
    let random = if parts.len() > 2 {
        assert(seqs_view(parts@)[2] == parts@[2]@);
        crate::text::eq_lit(&parts[2], "r")
    } else {
        false
    };
    AstNode::Lorem(Box::new(LoremNode { raw: raw.clone(), count, method, random }))
}

/// `key_values(words)`.
fn key_values_of(parts: &Vec<Vec<char>>) -> (r: Vec<Binding>)
    ensures
        bindings_view(r@) == key_values(seqs_view(parts@)),
{
    let ghost ps = seqs_view(parts@);
    let eq = chars_of("=");
    proof {
        reveal_strlit("=");
    }
    let mut out: Vec<Binding> = Vec::new();
    let mut k: usize = 0;
    assert(ps.take(0) =~= Seq::<Seq<char>>::empty());
    assert(bindings_view(out@) =~= Seq::<BindingModel>::empty());
    while k < parts.len()
        invariant
            k <= parts.len(),
            ps == seqs_view(parts@),
            eq@ == "="@,
            eq@ == seq!['='],
            bindings_view(out@) == key_values(ps.take(k as int)),
        decreases parts.len() - k,
    {
        let w = &parts[k];
        assert(ps.take(k + 1).drop_last() =~= ps.take(k as int));
        assert(ps.take(k + 1).last() == w@);
        match find_in(w, &eq, 0) {
            Some(i) => {
                let name = slice(w, 0, i);
                let value = slice(w, i + 1, w.len());
                assert(name@ =~= w@.take(i as int));
                assert(value@ =~= w@.skip(i + 1));
                let ghost before = bindings_view(out@);
                out.push(Binding { name: string_of_chars(&name), value: string_of_chars(&value) });
                assert(bindings_view(out@) =~= before.push(
                    BindingModel { name: w@.take(i as int), value: w@.skip(i + 1) },
                ));
            },
            None => {},
        }
        k += 1;
    }
    assert(ps.take(k as int) =~= ps);
    out
}

fn parse_querystring(c: &Vec<char>, raw: &String) -> (r: AstNode)
    ensures
        node_view(r) == querystring_node(c@, raw@),
{
    let parts = split_of(c, " as ");
    proof {
        crate::text::lemma_split_nonempty(c@, " as "@);
    }
    assert(seqs_view(parts@)[0] == parts@[0]@);
    let body = after_chars(&parts[0], "querystring");
    let parameters = key_values_of(&words_of(&body));
    let variable_name = as_pair_name_of(c);
    AstNode::Querystring(Box::new(QuerystringNode { raw: raw.clone(), parameters, variable_name }))
}

fn parse_translate(c: &Vec<char>, raw: &String) -> (r: AstNode)
    ensures
        node_view(r) == translate_node(c@, raw@),
{
    let parts = split_of(c, " as ");
    proof {
        crate::text::lemma_split_nonempty(c@, " as "@);
    }
    assert(seqs_view(parts@)[0] == parts@[0]@);
    let body = after_chars(&parts[0], "translate");
    let message = string_of_chars(&unquote_chars(&body));
    let variable_name = as_pair_name_of(c);
    let noop = find_in(&body, &chars_of("noop"), 0).is_some();
    AstNode::Translate(Box::new(TranslateNode { raw: raw.clone(), message, variable_name, noop }))
}

fn parse_plural(c: &Vec<char>, raw: &String) -> (r: AstNode)
    ensures
        node_view(r) == (NodeModel::Plural { raw: raw@, content: after(c@, "plural"@) }),
{
    AstNode::Plural(PluralNode { raw: raw.clone(), content: string_of_chars(&after_chars(c, "plural")) })
}

fn parse_regroup(c: &Vec<char>, raw: &String) -> (r: AstNode)
    ensures
        node_view(r) == ({
            let parts = words(after(c@, "regroup"@));
            NodeModel::Regroup {
                raw: raw@,
                list: nth_or(parts, 0, seq![]),
                field: nth_or(parts, 2, seq![]),
                as_variable: nth_or(parts, 4, seq![]),
            }
        }),
{
    let parts = words_of(&after_chars(c, "regroup"));
    let list = nth_or_empty(&parts, 0);
    let field = nth_or_empty(&parts, 2);
    let as_variable = nth_or_empty(&parts, 4);
    AstNode::Regroup(Box::new(RegroupNode { raw: raw.clone(), list, field, as_variable }))
}

/// The node of a tag without a body; `None` for any other tag.
fn leaf(tag: &Vec<char>, c: &Vec<char>, raw: &String) -> (r: Option<AstNode>)
    ensures
        match r {
            Some(n) => leaf_node(tag@, c@, raw@) == Some(node_view(n)),
            None => leaf_node(tag@, c@, raw@) is None,
        },
{
    if crate::text::eq_lit(tag, "extends") {
        let path = string_of_chars(&unquote_chars(&after_chars(c, "extends")));
        Some(AstNode::Extends(ExtendsNode { raw: raw.clone(), parent_path: path }))
    } else if crate::text::eq_lit(tag, "load") {
        Some(parse_load(c, raw))
    } else if crate::text::eq_lit(tag, "csrf_token") {
        Some(AstNode::Csrftoken(CsrftokenNode { raw: raw.clone() }))
    } else if crate::text::eq_lit(tag, "translate") {
        Some(parse_translate(c, raw))
    } else if crate::text::eq_lit(tag, "trans") {
        Some(parse_trans(c, raw))
    } else if crate::text::eq_lit(tag, "templatetag") {
        Some(parse_templatetag(c, raw))
    } else if crate::text::eq_lit(tag, "now") {
        Some(parse_now(c, raw))
    } else if crate::text::eq_lit(tag, "cycle") {
        Some(parse_cycle(c, raw))
    } else if crate::text::eq_lit(tag, "firstof") {
        Some(parse_firstof(c, raw))
    } else if crate::text::eq_lit(tag, "widthratio") {
        Some(parse_widthratio(c, raw))
    } else if crate::text::eq_lit(tag, "url") {
        Some(parse_url(c, raw))
    } else if crate::text::eq_lit(tag, "static") {
        Some(parse_static_capture(c, raw))
    } else if crate::text::eq_lit(tag, "debug") {
        Some(AstNode::Debug(DebugNode { raw: raw.clone() }))
    } else if crate::text::eq_lit(tag, "get_static_prefix") {
        Some(parse_get_static_prefix(c, raw))
    } else if crate::text::eq_lit(tag, "get_media_prefix") {
        Some(parse_get_media_prefix(c, raw))
    } else if crate::text::eq_lit(tag, "resetcycle") {
        Some(parse_resetcycle(c, raw))
    } else if crate::text::eq_lit(tag, "lorem") {
        Some(parse_lorem(c, raw))
    } else if crate::text::eq_lit(tag, "querystring") {
        Some(parse_querystring(c, raw))
    } else if crate::text::eq_lit(tag, "plural") {
        Some(parse_plural(c, raw))
    } else if crate::text::eq_lit(tag, "regroup") {
        Some(parse_regroup(c, raw))
    } else {
        None
    }
}

// ---------------------------------------------------------------------------
// Variables
// ---------------------------------------------------------------------------
fn copy_strings(v: &Vec<String>) -> (r: Vec<String>)
    ensures
        lexer::strings_view(r@) == lexer::strings_view(v@),
{
    let mut out: Vec<String> = Vec::new();
    let mut k: usize = 0;
    while k < v.len()
        invariant
            k <= v.len(),
            lexer::strings_view(out@) == lexer::strings_view(v@).take(k as int),
        decreases v.len() - k,
    {
        let t = v[k].clone();
        let ghost before = lexer::strings_view(out@);
        out.push(t);
        assert(lexer::strings_view(out@) =~= before.push(t@));
        k += 1;
        assert(lexer::strings_view(out@) =~= lexer::strings_view(v@).take(k as int));
    }
    assert(lexer::strings_view(v@).take(k as int) =~= lexer::strings_view(v@));
    out
}

/// The lexer's filters as syntax-tree filters.
fn convert_filter(filters: &Vec<lexer::Filter>) -> (r: Vec<crate::compiler::ast::Filter>)
    ensures
        ast_filters_view(r@) == lexer::filters_view(filters@),
{
    let mut out: Vec<crate::compiler::ast::Filter> = Vec::new();
    let mut k: usize = 0;
    while k < filters.len()
        invariant
            k <= filters.len(),
            ast_filters_view(out@) == lexer::filters_view(filters@).take(k as int),
        decreases filters.len() - k,
    {
        let f = crate::compiler::ast::Filter {
            name: filters[k].name.clone(),
            arguments: copy_strings(&filters[k].arguments),
        };
        let ghost before = ast_filters_view(out@);
        out.push(f);
        assert(ast_filters_view(out@) =~= before.push(
            crate::compiler::ast::ast_filter_view(f),
        ));
        k += 1;
        assert(ast_filters_view(out@) =~= lexer::filters_view(filters@).take(k as int));
    }
    assert(lexer::filters_view(filters@).take(k as int) =~= lexer::filters_view(filters@));
    out
}

/// The `json_script` node of a variable whose first `json_script` filter has
/// an argument.
fn try_json_script(
    expression: &String,
    filters: &Vec<crate::compiler::ast::Filter>,
    raw: &String,
) -> (r: Option<AstNode>)
    ensures
        ({
            let fs = ast_filters_view(filters@);
            match r {
                Some(n) => json_filter_from(fs, 0) matches Some(i) && fs[i].arguments.len() > 0
                    && node_view(n) == NodeModel::JsonScript {
                    raw: raw@,
                    variable: trim(before_bar(expression@)),
                    id: unquote(fs[i].arguments[0]),
                },
                None => !(json_filter_from(fs, 0) matches Some(i) && fs[i].arguments.len() > 0),
            }
        }),
{
    let ghost fs = ast_filters_view(filters@);
    let mut k: usize = 0;
    while k < filters.len()
        invariant
            k <= filters.len(),
            fs == ast_filters_view(filters@),
            json_filter_from(fs, 0) == json_filter_from(fs, k as int),
        decreases filters.len() - k,
    {
        assert(fs[k as int] == crate::compiler::ast::ast_filter_view(filters@[k as int]));
        if crate::text::eq_lit(&chars_of_string(&filters[k].name), "json_script") {
            if filters[k].arguments.len() == 0 {
                return None;
            }
            let id = string_of_chars(&unquote_chars(&chars_of_string(&filters[k].arguments[0])));
            let e = chars_of_string(expression);
            let bar = chars_of("|");
            let head = match find_in(&e, &bar, 0) {
                Some(i) => slice(&e, 0, i),
                None => copy_chars(&e),
            };
            let variable = string_of_chars(&trim_chars(&head));
            return Some(
                AstNode::JsonScript(Box::new(JsonScriptNode { raw: raw.clone(), variable, id })),
            );
        }
        k += 1;
    }
    None
}

fn variable_node_of(expression: &String, filters: Vec<crate::compiler::ast::Filter>, raw: &String) -> (r: AstNode)
    ensures
        node_view(r) == variable_node(expression@, ast_filters_view(filters@), raw@),
{
    match try_json_script(expression, &filters, raw) {
        Some(n) => n,
        None => AstNode::Variable(
            Box::new(VariableNode { raw: raw.clone(), expression: expression.clone(), filters }),
        ),
    }
}

fn string_length_is_zero(s: &String) -> (r: bool)
    ensures
        r == (s@.len() == 0),
{
    chars_of_string(s).len() == 0
}

pub(crate) fn is_super_node(n: &AstNode) -> (r: bool)
    ensures
        r == is_super(node_view(*n)),
{
    match n {
        AstNode::Variable(v) => crate::text::eq_lit(
            &trim_chars(&chars_of_string(&v.expression)),
            "block.super",
        ),
        _ => false,
    }
}

fn is_end_token(t: &Token, name: &str) -> (r: bool)
    ensures
        r == is_end(t@, name@),
{
    match t {
        Token::BlockEnd { tag, .. } => crate::text::eq_lit(&chars_of_string(tag), name),
        _ => false,
    }
}

fn is_start_token(t: &Token, name: &str) -> (r: bool)
    ensures
        r == is_start(t@, name@),
{
    match t {
        Token::BlockStart { tag, .. } => crate::text::eq_lit(&chars_of_string(tag), name),
        _ => false,
    }
}

fn is_body_tag_of(t: &Vec<char>) -> (r: bool)
    ensures
        r == is_body_tag(t@),
{
    crate::text::eq_lit(t, "with") || crate::text::eq_lit(t, "autoescape")
        || crate::text::eq_lit(t, "blocktranslate") || crate::text::eq_lit(t, "language")
        || crate::text::eq_lit(t, "filter") || crate::text::eq_lit(t, "cache")
        || crate::text::eq_lit(t, "localize") || crate::text::eq_lit(t, "localtime")
        || crate::text::eq_lit(t, "spaceless") || crate::text::eq_lit(t, "timezone")
        || crate::text::eq_lit(t, "utc")
}

/// The node of a body tag around its parsed body.
fn body_node_of(
    t: &Vec<char>,
    c: &Vec<char>,
    raw: &String,
    bindings: Vec<Binding>,
    body: Vec<AstNode>,
) -> (r: AstNode)
    ensures
        node_view(r) == body_node(t@, c@, raw@, bindings_view(bindings@), nodes_view(body@)),
{
    let raw = raw.clone();
    if crate::text::eq_lit(t, "with") {
        AstNode::With(Box::new(WithNode { raw, bindings, body }))
    } else if crate::text::eq_lit(t, "autoescape") {
        let value = string_of_chars(&after_chars(c, "autoescape"));
        AstNode::Autoescape(Box::new(AutoescapeNode { raw, value, body }))
    } else if crate::text::eq_lit(t, "blocktranslate") {
        let modifiers: Vec<String> = Vec::new();
        assert(lexer::strings_view(modifiers@) =~= Seq::<Seq<char>>::empty());
        AstNode::Blocktranslate(Box::new(BlocktranslateNode { raw, body, modifiers }))
    } else if crate::text::eq_lit(t, "language") {
        let language = string_of_chars(&unquote_chars(&after_chars(c, "language")));
        AstNode::Language(Box::new(LanguageNode { raw, language, body }))
    } else if crate::text::eq_lit(t, "filter") {
        let filter = string_of_chars(&after_chars(c, "filter"));
        AstNode::FilterBlock(Box::new(FilterBlockNode { raw, filter, body }))
    } else if crate::text::eq_lit(t, "cache") {
        let parts = words_of(&after_chars(c, "cache"));
        let timeout = nth_or_empty(&parts, 0);
        let name = nth_or_empty(&parts, 1);
        AstNode::Cache(Box::new(CacheNode { raw, timeout, name, body }))
    } else if crate::text::eq_lit(t, "localize") {
        let value = string_of_chars(&after_chars(c, "localize"));
        AstNode::Localize(Box::new(LocalizeNode { raw, value, body }))
    } else if crate::text::eq_lit(t, "localtime") {
        let value = string_of_chars(&after_chars(c, "localtime"));
        AstNode::Localtime(Box::new(LocaltimeNode { raw, value, body }))
    } else if crate::text::eq_lit(t, "spaceless") {
        AstNode::Spaceless(SpacelessNode { raw, body })
    } else if crate::text::eq_lit(t, "timezone") {
        let timezone = string_of_chars(&unquote_chars(&after_chars(c, "timezone")));
        AstNode::Timezone(Box::new(TimezoneNode { raw, timezone, body }))
    } else {
        AstNode::Utc(UtcNode { raw, body })
    }
}

/// `include_parts(c)`, for contents on which it is defined.
fn include_parts_of(c: &Vec<char>) -> (r: (String, Vec<Binding>, bool))
    requires
        include_parts(c@) is Some,
    ensures
        include_parts(c@) == Some((r.0@, bindings_view(r.1@), r.2)),
{
    let remainder = after_chars(c, "include");
    let end: usize = if remainder.len() == 0 {
        0
    } else if is_quote_char(remainder[0]) {
        close_quote_at(&remainder, 1, remainder[0])
    } else {
        scan_word_at(&remainder, 0)
    };
    assert(end == path_end(remainder@));
    let path = string_of_chars(&unquote_chars(&slice(&remainder, 0, end)));
    assert(remainder@.subrange(0, end as int) =~= remainder@.take(end as int));
    let rest = trim_chars(&slice(&remainder, end, remainder.len()));
    assert(remainder@.subrange(end as int, remainder@.len() as int) =~= remainder@.skip(end as int));
    let empty: Vec<Binding> = Vec::new();
    assert(bindings_view(empty@) =~= Seq::<BindingModel>::empty());
    if crate::text::eq_lit(&rest, "only") {
        return (path, empty, true);
    }
    let with = chars_of("with");
    proof {
        reveal_strlit("with");
    }
    if rest.len() >= 4 && crate::text::range_eq(&rest, 0, 4, &with) && (rest.len() == 4
        || is_blank_char(rest[4])) {
        assert(rest@.subrange(0, 4) =~= rest@.take(4));
        let after_with = slice(&rest, 4, rest.len());
        assert(after_with@ =~= rest@.skip(4));
        assert(after_with@.subrange(0, after_with@.len() as int) =~= after_with@);
        let r = trim_start_chars(&after_with);
        if crate::text::eq_lit(&r, "only") {
            return (path, empty, true);
        } else if r.len() == 0 {
            return (path, empty, false);
        }
        let (b, only) = parse_bindings(&r);
        return (path, b, only);
    }
    (path, empty, false)
}

// ---------------------------------------------------------------------------
// The parser
// ---------------------------------------------------------------------------
/// The outcome of a step that yields at most one node.
pub open spec fn node_result(
    p: Parsed<Option<NodeModel>>,
    r: Result<Option<AstNode>, ParseError>,
    st: PState,
) -> bool {
    match p {
        Parsed::Done(s, o) => r is Ok && opt_node_view(r->Ok_0) == o && st == s,
        Parsed::Fail(s) => r is Err && is_depth_error(r->Err_0) && st == s,
        Parsed::Abort => false,
    }
}

/// The outcome of a step that yields a node sequence.
pub open spec fn nodes_result(
    p: Parsed<Seq<NodeModel>>,
    r: Result<Vec<AstNode>, ParseError>,
    st: PState,
) -> bool {
    match p {
        Parsed::Done(s, o) => r is Ok && nodes_view(r->Ok_0@) == o && st == s,
        Parsed::Fail(s) => r is Err && is_depth_error(r->Err_0) && st == s,
        Parsed::Abort => false,
    }
}

/// A parser over a token stream that ends with `Eof`.
pub struct Parser {
    tokens: Vec<Token>,
    position: u32,
    depth: u32,
    diagnostics: Vec<Diagnostic>,
}

impl Parser {
    /// The token stream, as token models.
    pub closed spec fn toks(&self) -> Seq<TokenModel> {
        tokens_view(self.tokens@)
    }

    /// Where the parser stands.
    pub closed spec fn state(&self) -> PState {
        PState {
            pos: self.position as int,
            depth: self.depth as int,
            diags: diags_view(self.diagnostics@),
        }
    }

    pub closed spec fn wf(&self) -> bool {
        &&& self.tokens@.len() <= u32::MAX
        &&& self.tokens@.len() > 0
        &&& self.tokens@.last() is Eof
        &&& self.position < self.tokens@.len()
        &&& self.depth <= self.position
    }

    pub fn new(tokens: Vec<Token>) -> (r: Self)
        requires
            tokens@.len() > 0,
            tokens@.last() is Eof,
            tokens@.len() <= u32::MAX,
        ensures
            r.wf(),
            r.toks() == tokens_view(tokens@),
            r.state() == crate::compiler::syntax::initial_state(),
    {
        let r = Self { tokens, position: 0, depth: 0, diagnostics: Vec::new() };
        assert(diags_view(r.diagnostics@) =~= Seq::<DiagnosticModel>::empty());
        r
    }

    fn note(&mut self, severity: Severity, message: String, position: u32)
        ensures
            final(self).tokens@ == old(self).tokens@,
            final(self).position == old(self).position,
            final(self).depth == old(self).depth,
            final(self).state() == note(old(self).state(), severity, message@, position as int),
    {
        let ghost before = diags_view(self.diagnostics@);
        let d = Diagnostic { message, severity, position };
        self.diagnostics.push(d);
        assert(diags_view(self.diagnostics@) =~= before.push(d@));
    }

    fn warn(&mut self, message: String, position: u32)
        ensures
            final(self).tokens@ == old(self).tokens@,
            final(self).position == old(self).position,
            final(self).depth == old(self).depth,
            final(self).state() == warn(old(self).state(), message@, position as int),
    {
        self.note(Severity::Warning, message, position);
    }

    fn error(&mut self, message: String, position: u32)
        ensures
            final(self).tokens@ == old(self).tokens@,
            final(self).position == old(self).position,
            final(self).depth == old(self).depth,
            final(self).state() == error(old(self).state(), message@, position as int),
    {
        self.note(Severity::Error, message, position);
    }

    fn enter(&mut self) -> (r: Result<(), ParseError>)
        requires
            old(self).depth < old(self).position,
        ensures
            final(self).tokens@ == old(self).tokens@,
            final(self).position == old(self).position,
            final(self).diagnostics@ == old(self).diagnostics@,
            final(self).depth == old(self).depth + 1,
            final(self).state() == deeper(old(self).state()),
            r is Ok <==> !depth_exceeded(old(self).state()),
            r is Err ==> is_depth_error(r->Err_0),
    {
        self.depth += 1;
        if self.depth > NESTING_DEPTH_MAX {
            return Err(ParseError::Generic(lit("Template nesting depth exceeds maximum of 128")));
        }
        Ok(())
    }

    fn leave(&mut self)
        requires
            old(self).depth > 0,
        ensures
            final(self).tokens@ == old(self).tokens@,
            final(self).position == old(self).position,
            final(self).diagnostics@ == old(self).diagnostics@,
            final(self).depth == old(self).depth - 1,
            final(self).state() == shallower(old(self).state()),
    {
        self.depth -= 1;
    }

    fn done(&self) -> (r: bool)
        ensures
            r == done(self.toks(), self.position as int),
    {
        let p = self.position as usize;
        if p >= self.tokens.len() {
            return true;
        }
        match self.tokens[p] {
            Token::Eof => true,
            _ => false,
        }
    }

    fn advance(&mut self)
        requires
            old(self).wf(),
        ensures
            final(self).wf(),
            final(self).tokens@ == old(self).tokens@,
            final(self).depth == old(self).depth,
            final(self).diagnostics@ == old(self).diagnostics@,
            final(self).state() == adv(old(self).toks(), old(self).state()),
            final(self).position >= old(self).position,
            !done(old(self).toks(), old(self).position as int) ==> final(self).position
                == old(self).position + 1,
    {
        if !self.done() {
            self.position += 1;
        }
    }

    /// All nodes up to the end of the stream.
    pub fn parse(&mut self) -> (r: Result<Vec<AstNode>, ParseError>)
        requires
            old(self).wf(),
            !(top_loop(old(self).toks(), old(self).state(), 0, seq![]) is Abort),
        ensures
            final(self).wf(),
            final(self).toks() == old(self).toks(),
            nodes_result(top_loop(old(self).toks(), old(self).state(), 0, seq![]), r, final(self).state()),
    {
        let ghost toks = self.toks();
        let ghost st0 = self.state();
        assert(top_loop(toks, st0, 0, seq![]) == top_rest(toks, st0, 0, seq![])) by {
            reveal(top_rest);
        }
        let mut nodes: Vec<AstNode> = Vec::new();
        let mut iterations: u32 = 0;
        assert(nodes_view(nodes@) =~= Seq::<NodeModel>::empty());
        while !self.done()
            invariant
                self.wf(),
                self.toks() == toks,
                toks == old(self).toks(),
                st0 == old(self).state(),
                !(top_rest(toks, st0, 0, seq![]) is Abort),
                top_rest(toks, st0, 0, seq![]) == top_rest(toks, self.state(), iterations as nat, nodes_view(nodes@)),
            decreases self.tokens@.len() - self.position,
        {
            proof {
                lemma_top_step(toks, self.state(), iterations as nat, nodes_view(nodes@));
            }
            assert(top_loop(toks, st0, 0, seq![]) == top_rest(toks, st0, 0, seq![])) by {
                reveal(top_rest);
            }
            iterations += 1;
            match self.parse_node() {
                Err(e) => {
                    return Err(e);
                },
                Ok(o) => {
                    match o {
                        Some(node) => {
                            let ghost nodes0 = nodes@;
                            nodes.push(node);
                            proof {
                                lemma_nodes_view_push(nodes0, node);
                            }
                        },
                        None => {},
                    }
                },
            }
        }
        assert(top_rest(toks, self.state(), iterations as nat, nodes_view(nodes@)) == Parsed::Done(self.state(), nodes_view(nodes@))) by {
            reveal(top_rest);
        }
        assert(top_loop(toks, st0, 0, seq![]) == top_rest(toks, st0, 0, seq![])) by {
            reveal(top_rest);
        }
        Ok(nodes)
    }

    fn parse_node(&mut self) -> (r: Result<Option<AstNode>, ParseError>)
        requires
            old(self).wf(),
            !(node_step(old(self).toks(), old(self).state()) is Abort),
        ensures
            final(self).wf(),
            final(self).tokens@ == old(self).tokens@,
            final(self).position >= old(self).position,
            final(self).depth >= old(self).depth,
            !done(old(self).toks(), old(self).position as int) ==> final(self).position
                > old(self).position,
            node_result(node_step(old(self).toks(), old(self).state()), r, final(self).state()),
        decreases old(self).tokens@.len() - old(self).position, 0nat,
    {
        proof {
            reveal(node_step);
        }
        if self.done() {
            return Ok(None);
        }
        let p = self.position as usize;
        assert(self.toks()[p as int] == self.tokens@[p as int]@);
        match &self.tokens[p] {
            Token::Text(c) => {
                let content = c.clone();
                self.advance();
                Ok(Some(AstNode::Text(TextNode { content })))
            },
            Token::Variable { raw, expression, filters } => {
                let raw = raw.clone();
                let expression = expression.clone();
                let filters = convert_filter(filters);
                self.advance();
                Ok(Some(variable_node_of(&expression, filters, &raw)))
            },
            Token::BlockStart { raw, tag, content } => {
                let raw = raw.clone();
                let tag = tag.clone();
                let content = content.clone();
                self.advance();
                self.parse_tag(&tag, &content, &raw)
            },
            Token::BlockEnd { raw, .. } => {
                let content = raw.clone();
                self.advance();
                Ok(Some(AstNode::Text(TextNode { content })))
            },
            Token::Comment(c) => {
                let mut content = lit("{# ");
                append_str(&mut content, c.as_str());
                append_str(&mut content, " #}");
                self.advance();
                Ok(Some(AstNode::Text(TextNode { content })))
            },
            Token::Eof => Ok(None),
        }
    }

    fn parse_tag(&mut self, tag: &String, content: &String, raw: &String) -> (r: Result<
        Option<AstNode>,
        ParseError,
    >)
        requires
            old(self).wf(),
            old(self).depth < old(self).position,
            !(p_tag(old(self).toks(), old(self).state(), tag@, content@, raw@) is Abort),
        ensures
            final(self).wf(),
            final(self).tokens@ == old(self).tokens@,
            final(self).position >= old(self).position,
            final(self).depth >= old(self).depth,
            node_result(
                p_tag(old(self).toks(), old(self).state(), tag@, content@, raw@),
                r,
                final(self).state(),
            ),
        decreases old(self).tokens@.len() - old(self).position, 3nat,
    {
        let t = chars_of_string(tag);
        let c = chars_of_string(content);
        if crate::text::eq_lit(&t, "block") {
            self.parse_block(&c, raw)
        } else if crate::text::eq_lit(&t, "if") {
            self.parse_if(&c, raw)
        } else if crate::text::eq_lit(&t, "for") {
            self.parse_for(content, raw)
        } else if crate::text::eq_lit(&t, "ifchanged") {
            self.parse_ifchanged(&c, raw)
        } else if crate::text::eq_lit(&t, "comment") {
            self.parse_comment_block(raw)
        } else if crate::text::eq_lit(&t, "include") {
            self.parse_include(&c, raw)
        } else if crate::text::eq_lit(&t, "extends") {
            self.parse_extends(&c, raw)
        } else if crate::text::eq_lit(&t, "verbatim") {
            self.parse_verbatim(raw)
        } else if is_body_tag_of(&t) {
            let bindings = if crate::text::eq_lit(&t, "with") {
                parse_bindings(&after_chars(&c, "with")).0
            } else {
                let b: Vec<Binding> = Vec::new();
                assert(bindings_view(b@) =~= Seq::<BindingModel>::empty());
                b
            };
            match self.parse_until(tag) {
                Ok(body) => Ok(Some(body_node_of(&t, &c, raw, bindings, body))),
                Err(e) => Err(e),
            }
        } else {
            match leaf(&t, &c, raw) {
                Some(n) => Ok(Some(n)),
                None => Ok(Some(AstNode::Text(TextNode { content: raw.clone() }))),
            }
        }
    }

    fn parse_extends(&mut self, c: &Vec<char>, raw: &String) -> (r: Result<Option<AstNode>, ParseError>)
        requires
            old(self).wf(),
            old(self).position > 0,
        ensures
            final(self).wf(),
            final(self).tokens@ == old(self).tokens@,
            final(self).position == old(self).position,
            final(self).depth == old(self).depth,
            node_result(
                Parsed::Done(
                    if extends_path(c@).len() == 0 {
                        error(old(self).state(), "{% extends %} tag has empty path"@, old(self).position - 1)
                    } else {
                        old(self).state()
                    },
                    Some(NodeModel::Extends { raw: raw@, parent_path: extends_path(c@) }),
                ),
                r,
                final(self).state(),
            ),
    {
        let pc = unquote_chars(&after_chars(c, "extends"));
        if pc.len() == 0 {
            self.error(lit("{% extends %} tag has empty path"), self.position - 1);
        }
        let path = string_of_chars(&pc);
        Ok(Some(AstNode::Extends(ExtendsNode { raw: raw.clone(), parent_path: path })))
    }

    fn parse_include(&mut self, c: &Vec<char>, raw: &String) -> (r: Result<Option<AstNode>, ParseError>)
        requires
            old(self).wf(),
            old(self).position > 0,
            include_parts(c@) is Some,
        ensures
            final(self).wf(),
            final(self).tokens@ == old(self).tokens@,
            final(self).position == old(self).position,
            final(self).depth == old(self).depth,
            ({
                let (path, bindings, only) = include_parts(c@)->Some_0;
                node_result(
                    Parsed::Done(
                        if path.len() == 0 {
                            error(old(self).state(), "{% include %} tag has empty path"@, old(self).position - 1)
                        } else {
                            old(self).state()
                        },
                        Some(NodeModel::Include { raw: raw@, path, with_variables: bindings, only }),
                    ),
                    r,
                    final(self).state(),
                )
            }),
    {
        let (path, with_variables, only) = include_parts_of(c);
        if string_length_is_zero(&path) {
            self.error(lit("{% include %} tag has empty path"), self.position - 1);
        }
        Ok(Some(AstNode::Include(Box::new(IncludeNode { raw: raw.clone(), path, with_variables, only }))))
    }

    fn parse_verbatim(&mut self, raw: &String) -> (r: Result<Option<AstNode>, ParseError>)
        requires
            old(self).wf(),
        ensures
            final(self).wf(),
            final(self).tokens@ == old(self).tokens@,
            final(self).position >= old(self).position,
            final(self).depth == old(self).depth,
            ({
                let toks = old(self).toks();
                let st = old(self).state();
                node_result(
                    if 0 <= st.pos < toks.len() && toks[st.pos] is Text {
                        Parsed::Done(
                            PState { pos: st.pos + 1, ..st },
                            Some(NodeModel::Verbatim { raw: raw@, content: toks[st.pos]->Text_0 }),
                        )
                    } else {
                        Parsed::Done(st, Some(NodeModel::Verbatim { raw: raw@, content: seq![] }))
                    },
                    r,
                    final(self).state(),
                )
            }),
    {
        let p = self.position as usize;
        assert(self.toks()[p as int] == self.tokens@[p as int]@);
        let content = match &self.tokens[p] {
            Token::Text(t) => Some(t.clone()),
            _ => None,
        };
        match content {
            Some(t) => {
                self.advance();
                Ok(Some(AstNode::Verbatim(VerbatimNode { raw: raw.clone(), content: t })))
            },
            None => Ok(Some(AstNode::Verbatim(VerbatimNode { raw: raw.clone(), content: String::new() }))),
        }
    }

    fn parse_until(&mut self, end_tag: &String) -> (r: Result<Vec<AstNode>, ParseError>)
        requires
            old(self).wf(),
            old(self).depth < old(self).position,
            !(p_until(old(self).toks(), old(self).state(), end_tag@) is Abort),
        ensures
            final(self).wf(),
            final(self).tokens@ == old(self).tokens@,
            final(self).position >= old(self).position,
            final(self).depth >= old(self).depth,
            nodes_result(p_until(old(self).toks(), old(self).state(), end_tag@), r, final(self).state()),
        decreases old(self).tokens@.len() - old(self).position, 2nat,
    {
        let ghost toks = self.toks();
        let ghost tokens0 = self.tokens@;
        let ghost st0 = self.state();
        proof {
            lemma_p_until(toks, st0, end_tag@);
        }
        match self.enter() {
            Err(e) => {
                return Err(e);
            },
            Ok(()) => {},
        }
        let ghost st1 = self.state();
        let start = self.position;
        let mut body: Vec<AstNode> = Vec::new();
        let mut iterations: u32 = 0;
        assert(nodes_view(body@) =~= Seq::<NodeModel>::empty());
        loop
            invariant
                self.wf(),
                self.tokens@ == tokens0,
                tokens0 == old(self).tokens@,
                toks == tokens_view(tokens0),
                st0 == old(self).state(),
                start == old(self).position,
                start as int == st0.pos,
                st1 =~= deeper(st0),
                !depth_exceeded(st0),
                self.position >= start,
                self.depth >= st0.depth + 1,
                !(until_rest(toks, st1, end_tag@, start as int, 0, seq![]) is Abort),
                until_rest(toks, st1, end_tag@, start as int, 0, seq![]) == until_rest(
                    toks,
                    self.state(),
                    end_tag@,
                    start as int,
                    iterations as nat,
                    nodes_view(body@),
                ),
            decreases self.tokens@.len() - self.position,
        {
            let ghost st = self.state();
            let ghost it = iterations as nat;
            let ghost b = nodes_view(body@);
            proof {
                lemma_until_step(toks, st, end_tag@, start as int, it, b);
                lemma_p_until(toks, st0, end_tag@);
            }
            iterations += 1;
            if self.done() {
                let m = numbered_msg(wrap_msg("Unclosed '", end_tag.as_str(), "' tag (opened at token "), start);
                assert(done(toks, st.pos));
                assert(m@ == "Unclosed '"@ + end_tag@ + "' tag (opened at token "@ + crate::text::decimal(start as nat) + ")"@);
                assert(until_rest(toks, st1, end_tag@, start as int, 0, seq![]) == Parsed::Done(warn(st, m@, start as int), b));
                self.warn(m, start);
                assert(self.state() == warn(st, m@, start as int));
                self.leave();
                assert(self.state() == shallower(warn(st, m@, start as int)));
                assert(p_until(toks, st0, end_tag@) == Parsed::Done(shallower(warn(st, m@, start as int)), b));
                return Ok(body);
            }
            let mark = self.position;
            assert(toks[mark as int] == self.tokens@[mark as int]@);
            if is_end_token(&self.tokens[mark as usize], end_tag.as_str()) {
                self.advance();
                self.leave();
                return Ok(body);
            }
            match self.parse_node() {
                Ok(o) => match o {
                    Some(node) => {
                        let ghost body0 = body@;
                        body.push(node);
                        proof {
                            lemma_nodes_view_push(body0, node);
                        }
                    },
                    None => {
                        if self.position == mark {
                            self.warn(wrap_msg("Skipped unparseable token inside '", end_tag.as_str(), "'"), mark);
                            self.advance();
                        }
                    },
                },
                Err(_) => {
                    if self.position == mark {
                        self.error(wrap_msg("Error parsing child of '", end_tag.as_str(), "', skipping token"), mark);
                        self.advance();
                    }
                },
            }
        }
    }

    fn parse_block(&mut self, c: &Vec<char>, raw: &String) -> (r: Result<Option<AstNode>, ParseError>)
        requires
            old(self).wf(),
            old(self).depth < old(self).position,
            !(p_block(old(self).toks(), old(self).state(), c@, raw@) is Abort),
        ensures
            final(self).wf(),
            final(self).tokens@ == old(self).tokens@,
            final(self).position >= old(self).position,
            final(self).depth >= old(self).depth,
            node_result(p_block(old(self).toks(), old(self).state(), c@, raw@), r, final(self).state()),
        decreases old(self).tokens@.len() - old(self).position, 2nat,
    {
        let ghost toks = self.toks();
        let ghost tokens0 = self.tokens@;
        let ghost st0 = self.state();
        proof {
            lemma_p_block(toks, st0, c@, raw@);
        }
        match self.enter() {
            Err(e) => {
                return Err(e);
            },
            Ok(()) => {},
        }
        let ghost st1 = self.state();
        let name = string_of_chars(&after_chars(c, "block"));
        let start = self.position;
        let mut body: Vec<AstNode> = Vec::new();
        let mut has_super = false;
        let mut iterations: u32 = 0;
        assert(nodes_view(body@) =~= Seq::<NodeModel>::empty());
        loop
            invariant
                self.wf(),
                self.tokens@ == tokens0,
                tokens0 == old(self).tokens@,
                toks == tokens_view(tokens0),
                st0 == old(self).state(),
                start == old(self).position,
                start as int == st0.pos,
                st1 =~= deeper(st0),
                !depth_exceeded(st0),
                name@ == after(c@, "block"@),
                self.position >= start,
                self.depth >= st0.depth + 1,
                !(block_rest(toks, st1, name@, start as int, 0, seq![], false) is Abort),
                block_rest(toks, st1, name@, start as int, 0, seq![], false) == block_rest(
                    toks,
                    self.state(),
                    name@,
                    start as int,
                    iterations as nat,
                    nodes_view(body@),
                    has_super,
                ),
            decreases self.tokens@.len() - self.position,
        {
            proof {
                lemma_block_step(toks, self.state(), name@, start as int, iterations as nat, nodes_view(body@), has_super);
                lemma_p_block(toks, st0, c@, raw@);
            }
            iterations += 1;
            if self.done() {
                let m = numbered_msg(wrap_msg("Unclosed block '", name.as_str(), "' (opened at token "), start);
                self.warn(m, start);
                self.leave();
                return Ok(Some(AstNode::Block(Box::new(BlockNode {
                    raw: raw.clone(),
                    name,
                    content: body,
                    has_super_reference: has_super,
                }))));
            }
            let mark = self.position;
            assert(toks[mark as int] == self.tokens@[mark as int]@);
            if is_end_token(&self.tokens[mark as usize], "block") {
                self.advance();
                self.leave();
                return Ok(Some(AstNode::Block(Box::new(BlockNode {
                    raw: raw.clone(),
                    name,
                    content: body,
                    has_super_reference: has_super,
                }))));
            }
            match self.parse_node() {
                Err(e) => {
                    return Err(e);
                },
                Ok(o) => match o {
                    Some(node) => {
                        if is_super_node(&node) {
                            has_super = true;
                        }
                        let ghost body0 = body@;
                        body.push(node);
                        proof {
                            lemma_nodes_view_push(body0, node);
                        }
                    },
                    None => {},
                },
            }
            if self.position == mark {
                self.advance();
            }
        }
    }

    fn parse_if(&mut self, c: &Vec<char>, raw: &String) -> (r: Result<Option<AstNode>, ParseError>)
        requires
            old(self).wf(),
            old(self).depth < old(self).position,
            !(p_if(old(self).toks(), old(self).state(), c@, raw@) is Abort),
        ensures
            final(self).wf(),
            final(self).tokens@ == old(self).tokens@,
            final(self).position >= old(self).position,
            final(self).depth >= old(self).depth,
            node_result(p_if(old(self).toks(), old(self).state(), c@, raw@), r, final(self).state()),
        decreases old(self).tokens@.len() - old(self).position, 2nat,
    {
        let ghost toks = self.toks();
        let ghost tokens0 = self.tokens@;
        let ghost st0 = self.state();
        proof {
            lemma_p_if(toks, st0, c@, raw@);
        }
        match self.enter() {
            Err(e) => {
                return Err(e);
            },
            Ok(()) => {},
        }
        let ghost st1 = self.state();
        let condition = string_of_chars(&after_chars(c, "if"));
        let start = self.position;
        let mut true_branch: Vec<AstNode> = Vec::new();
        let mut elif_branches: Vec<ElifBranch> = Vec::new();
        let mut else_branch: Option<Vec<AstNode>> = None;
        let mut phase: u8 = 0;
        let mut iterations: u32 = 0;
        assert(if_parts_view(true_branch, elif_branches, else_branch, phase) =~= (IfParts {
            true_branch: seq![],
            elifs: seq![],
            else_branch: None,
            phase: 0,
        }));
        loop
            invariant
                self.wf(),
                self.tokens@ == tokens0,
                tokens0 == old(self).tokens@,
                toks == tokens_view(tokens0),
                st0 == old(self).state(),
                start == old(self).position,
                start as int == st0.pos,
                st1 =~= deeper(st0),
                !depth_exceeded(st0),
                condition@ == after(c@, "if"@),
                phase <= 2,
                self.position >= start,
                self.depth >= st0.depth + 1,
                !(if_rest(toks, st1, start as int, 0, IfParts { true_branch: seq![], elifs: seq![], else_branch: None, phase: 0 }) is Abort),
                if_rest(toks, st1, start as int, 0, IfParts { true_branch: seq![], elifs: seq![], else_branch: None, phase: 0 }) == if_rest(
                    toks,
                    self.state(),
                    start as int,
                    iterations as nat,
                    if_parts_view(true_branch, elif_branches, else_branch, phase),
                ),
            decreases self.tokens@.len() - self.position,
        {
            proof {
                lemma_if_step(toks, self.state(), start as int, iterations as nat, if_parts_view(true_branch, elif_branches, else_branch, phase));
                lemma_p_if(toks, st0, c@, raw@);
            }
            iterations += 1;
            if self.done() {
                let m = numbered_msg(lit("Unclosed if tag (opened at token "), start);
                self.warn(m, start);
                self.leave();
                return Ok(Some(AstNode::If(Box::new(IfNode {
                    raw: raw.clone(),
                    condition,
                    true_branch,
                    elif_branches,
                    else_branch,
                }))));
            }
            let mark = self.position;
            assert(toks[mark as int] == self.tokens@[mark as int]@);
            if is_end_token(&self.tokens[mark as usize], "if") {
                self.advance();
                self.leave();
                return Ok(Some(AstNode::If(Box::new(IfNode {
                    raw: raw.clone(),
                    condition,
                    true_branch,
                    elif_branches,
                    else_branch,
                }))));
            }
            if is_start_token(&self.tokens[mark as usize], "elif") {
                let cond = match &self.tokens[mark as usize] {
                    Token::BlockStart { content, .. } => after_chars(&chars_of_string(content), "elif"),
                    _ => Vec::new(),
                };
                self.advance();
                let e = ElifBranch { condition: string_of_chars(&cond), body: Vec::new() };
                proof {
                    assert(nodes_view(e.body@) =~= Seq::<NodeModel>::empty());
                    lemma_elifs_view_push(elif_branches@, e);
                }
                elif_branches.push(e);
                phase = 1;
                continue;
            }
            if is_start_token(&self.tokens[mark as usize], "else") && phase != 2 {
                self.advance();
                let empty: Vec<AstNode> = Vec::new();
                assert(nodes_view(empty@) =~= Seq::<NodeModel>::empty());
                else_branch = Some(empty);
                phase = 2;
                continue;
            }
            match self.parse_node() {
                Err(e) => {
                    return Err(e);
                },
                Ok(o) => match o {
                    Some(node) => {
                        if_push(&mut true_branch, &mut elif_branches, &mut else_branch, phase, node);
                    },
                    None => {},
                },
            }
            if self.position == mark {
                self.advance();
            }
        }
    }

    /// The main branch and the alternative branch of a for or ifchanged tag.
    fn parse_branches(&mut self, end: &str, alt: &str, start: u32) -> (r: Result<
        (Vec<AstNode>, Option<Vec<AstNode>>),
        ParseError,
    >)
        requires
            old(self).wf(),
            old(self).depth >= 1,
            start <= old(self).position,
            !(two_rest(old(self).toks(), old(self).state(), end@, alt@, start as int, 0, seq![], None, false) is Abort),
        ensures
            final(self).wf(),
            final(self).tokens@ == old(self).tokens@,
            final(self).position >= old(self).position,
            final(self).depth >= old(self).depth,
            match two_rest(old(self).toks(), old(self).state(), end@, alt@, start as int, 0, seq![], None, false) {
                Parsed::Done(s, (m, o)) => r is Ok && nodes_view(r->Ok_0.0@) == m && opt_nodes_view(r->Ok_0.1) == o && final(self).state() == s,
                Parsed::Fail(s) => r is Err && is_depth_error(r->Err_0) && final(self).state() == s,
                Parsed::Abort => false,
            },
        decreases old(self).tokens@.len() - old(self).position, 1nat,
    {
        let ghost toks = self.toks();
        let ghost tokens0 = self.tokens@;
        let ghost st1 = self.state();
        let ghost p0 = self.position;
        let ghost d0 = self.depth;
        let mut main: Vec<AstNode> = Vec::new();
        let mut other: Option<Vec<AstNode>> = None;
        let mut in_other = false;
        let mut iterations: u32 = 0;
        assert(nodes_view(main@) =~= Seq::<NodeModel>::empty());
        loop
            invariant
                self.wf(),
                self.tokens@ == tokens0,
                tokens0 == old(self).tokens@,
                p0 == old(self).position,
                d0 == old(self).depth,
                st1 == old(self).state(),
                toks == tokens_view(tokens0),
                self.position >= p0,
                self.depth >= d0,
                d0 >= 1,
                !(two_rest(toks, st1, end@, alt@, start as int, 0, seq![], None, false) is Abort),
                two_rest(toks, st1, end@, alt@, start as int, 0, seq![], None, false) == two_rest(
                    toks,
                    self.state(),
                    end@,
                    alt@,
                    start as int,
                    iterations as nat,
                    nodes_view(main@),
                    opt_nodes_view(other),
                    in_other,
                ),
            decreases self.tokens@.len() - self.position,
        {
            proof {
                lemma_two_step(toks, self.state(), end@, alt@, start as int, iterations as nat, nodes_view(main@), opt_nodes_view(other), in_other);
            }
            iterations += 1;
            if self.done() {
                let m = numbered_msg(wrap_msg("Unclosed ", end, " tag (opened at token "), start);
                self.warn(m, start);
                return Ok((main, other));
            }
            let mark = self.position;
            assert(toks[mark as int] == self.tokens@[mark as int]@);
            if is_end_token(&self.tokens[mark as usize], end) {
                self.advance();
                return Ok((main, other));
            }
            if is_start_token(&self.tokens[mark as usize], alt) && !in_other {
                self.advance();
                let empty: Vec<AstNode> = Vec::new();
                assert(nodes_view(empty@) =~= Seq::<NodeModel>::empty());
                other = Some(empty);
                in_other = true;
                continue;
            }
            match self.parse_node() {
                Err(e) => {
                    return Err(e);
                },
                Ok(o) => match o {
                    Some(node) => {
                        if in_other {
                            other = match other {
                                Some(mut b) => {
                                    let ghost b0 = b@;
                                    b.push(node);
                                    proof {
                                        lemma_nodes_view_push(b0, node);
                                    }
                                    Some(b)
                                },
                                None => None,
                            };
                        } else {
                            let ghost main0 = main@;
                            main.push(node);
                            proof {
                                lemma_nodes_view_push(main0, node);
                            }
                        }
                    },
                    None => {},
                },
            }
            if self.position == mark {
                self.advance();
            }
        }
    }

    fn parse_for(&mut self, content: &String, raw: &String) -> (r: Result<Option<AstNode>, ParseError>)
        requires
            old(self).wf(),
            old(self).depth < old(self).position,
            !(p_for(old(self).toks(), old(self).state(), content@, raw@) is Abort),
        ensures
            final(self).wf(),
            final(self).tokens@ == old(self).tokens@,
            final(self).position >= old(self).position,
            final(self).depth >= old(self).depth,
            node_result(p_for(old(self).toks(), old(self).state(), content@, raw@), r, final(self).state()),
        decreases old(self).tokens@.len() - old(self).position, 2nat,
    {
        let ghost st0 = self.state();
        proof {
            lemma_p_for(self.toks(), st0, content@, raw@);
        }
        match self.enter() {
            Err(e) => {
                return Err(e);
            },
            Ok(()) => {},
        }
        let c = chars_of_string(content);
        let parts = split_of(&after_chars(&c, "for"), " in ");
        let variable = nth_or_empty(&parts, 0);
        let iterable = nth_or_empty(&parts, 1);
        if string_length_is_zero(&variable) || string_length_is_zero(&iterable) {
            self.warn(wrap_msg("Malformed for tag: '", content.as_str(), "'"), self.position - 1);
        }
        let start = self.position;
        match self.parse_branches("for", "empty", start) {
            Err(e) => Err(e),
            Ok((body, empty_branch)) => {
                self.leave();
                Ok(Some(AstNode::For(Box::new(ForNode {
                    raw: raw.clone(),
                    variable,
                    iterable,
                    body,
                    empty_branch,
                }))))
            },
        }
    }

    fn parse_ifchanged(&mut self, c: &Vec<char>, raw: &String) -> (r: Result<Option<AstNode>, ParseError>)
        requires
            old(self).wf(),
            old(self).depth < old(self).position,
            !(p_ifchanged(old(self).toks(), old(self).state(), c@, raw@) is Abort),
        ensures
            final(self).wf(),
            final(self).tokens@ == old(self).tokens@,
            final(self).position >= old(self).position,
            final(self).depth >= old(self).depth,
            node_result(p_ifchanged(old(self).toks(), old(self).state(), c@, raw@), r, final(self).state()),
        decreases old(self).tokens@.len() - old(self).position, 2nat,
    {
        proof {
            lemma_p_ifchanged(self.toks(), self.state(), c@, raw@);
        }
        match self.enter() {
            Err(e) => {
                return Err(e);
            },
            Ok(()) => {},
        }
        let condition = after_chars(c, "ifchanged");
        let start = self.position;
        match self.parse_branches("ifchanged", "else", start) {
            Err(e) => Err(e),
            Ok((true_branch, else_branch)) => {
                self.leave();
                let condition = if condition.len() == 0 {
                    None
                } else {
                    Some(string_of_chars(&condition))
                };
                Ok(Some(AstNode::Ifchanged(Box::new(IfchangedNode {
                    raw: raw.clone(),
                    condition,
                    true_branch,
                    else_branch,
                }))))
            },
        }
    }

    fn parse_comment_block(&mut self, raw: &String) -> (r: Result<Option<AstNode>, ParseError>)
        requires
            old(self).wf(),
            old(self).depth < old(self).position,
            !(p_comment(old(self).toks(), old(self).state(), raw@) is Abort),
        ensures
            final(self).wf(),
            final(self).tokens@ == old(self).tokens@,
            final(self).position >= old(self).position,
            final(self).depth >= old(self).depth,
            node_result(p_comment(old(self).toks(), old(self).state(), raw@), r, final(self).state()),
        decreases old(self).tokens@.len() - old(self).position, 2nat,
    {
        let ghost toks = self.toks();
        let ghost tokens0 = self.tokens@;
        let ghost st0 = self.state();
        proof {
            lemma_p_comment(toks, st0, raw@);
        }
        match self.enter() {
            Err(e) => {
                return Err(e);
            },
            Ok(()) => {},
        }
        let ghost st1 = self.state();
        let mut content = String::new();
        loop
            invariant
                self.wf(),
                self.tokens@ == tokens0,
                tokens0 == old(self).tokens@,
                toks == tokens_view(tokens0),
                st0 == old(self).state(),
                st1 =~= deeper(st0),
                !depth_exceeded(st0),
                self.position >= st0.pos,
                self.depth >= st0.depth + 1,
                !(comment_rest(toks, st1, seq![]) is Abort),
                comment_rest(toks, st1, seq![]) == comment_rest(toks, self.state(), content@),
            decreases self.tokens@.len() - self.position,
        {
            proof {
                lemma_comment_step(toks, self.state(), content@);
                lemma_p_comment(toks, st0, raw@);
            }
            if self.done() {
                self.leave();
                return Ok(Some(AstNode::CommentBlock(CommentBlockNode { raw: raw.clone(), content })));
            }
            let mark = self.position;
            assert(toks[mark as int] == self.tokens@[mark as int]@);
            if is_end_token(&self.tokens[mark as usize], "comment") {
                self.advance();
                self.leave();
                return Ok(Some(AstNode::CommentBlock(CommentBlockNode { raw: raw.clone(), content })));
            }
            match self.parse_node() {
                Err(e) => {
                    return Err(e);
                },
                Ok(o) => match o {
                    Some(AstNode::Text(t)) => append_str(&mut content, t.content.as_str()),
                    _ => {},
                },
            }
        }
    }
}

/// `s` with `mid` between `head` and `tail`.
fn wrap_msg(head: &str, mid: &str, tail: &str) -> (r: String)
    ensures
        r@ == head@ + mid@ + tail@,
{
    let mut m = lit(head);
    append_str(&mut m, mid);
    append_str(&mut m, tail);
    m
}

/// `head`, the decimal notation of `n` and a closing parenthesis.
fn numbered_msg(head: String, n: u32) -> (r: String)
    ensures
        r@ == head@ + crate::text::decimal(n as nat) + ")"@,
{
    let mut m = head;
    push_decimal(&mut m, n as u64);
    append_str(&mut m, ")");
    m
}

pub open spec fn if_parts_view(
    tb: Vec<AstNode>,
    elifs: Vec<ElifBranch>,
    eb: Option<Vec<AstNode>>,
    phase: u8,
) -> IfParts {
    IfParts {
        true_branch: nodes_view(tb@),
        elifs: elifs_view(elifs@),
        else_branch: opt_nodes_view(eb),
        phase: phase as nat,
    }
}

/// Adds a node to the branch of an if tag that `phase` names.
fn if_push(
    tb: &mut Vec<AstNode>,
    elifs: &mut Vec<ElifBranch>,
    eb: &mut Option<Vec<AstNode>>,
    phase: u8,
    node: AstNode,
)
    ensures
        if_parts_view(*final(tb), *final(elifs), *final(eb), phase) == if_add(
            if_parts_view(*old(tb), *old(elifs), *old(eb), phase),
            node_view(node),
        ),
{
    if phase == 0 {
        tb.push(node);
        proof {
            lemma_nodes_view_push(old(tb)@, node);
        }
    } else if phase == 1 {
        if elifs.len() > 0 {
            let ghost before = elifs@;
            let mut last = elifs.pop().unwrap();
            let ghost last0 = last;
            last.body.push(node);
            proof {
                lemma_nodes_view_push(last0.body@, node);
                assert(before =~= elifs@.push(last0));
                lemma_elifs_view_push(elifs@, last0);
                lemma_elifs_view_push(elifs@, last);
            }
            elifs.push(last);
            assert(elifs_view(elifs@) =~= elifs_view(before).update(
                elifs_view(before).len() - 1,
                ElifModel { condition: last0.condition@, body: nodes_view(last0.body@).push(node_view(node)) },
            ));
        }
    } else {
        let taken = eb.take();
        match taken {
            Some(mut b) => {
                let ghost b0 = b@;
                b.push(node);
                proof {
                    lemma_nodes_view_push(b0, node);
                }
                *eb = Some(b);
            },
            None => {
                *eb = None;
            },
        }
    }
}


// ---------------------------------------------------------------------------
// The parser's spec functions under names that stay folded until revealed
// ---------------------------------------------------------------------------
#[verifier::opaque]
pub open spec fn node_step(toks: Seq<TokenModel>, st: PState) -> Parsed<Option<NodeModel>> {
    p_node(toks, st)
}

#[verifier::opaque]
pub open spec fn until_rest(
    toks: Seq<TokenModel>,
    st: PState,
    end: Seq<char>,
    start: int,
    iter: nat,
    body: Seq<NodeModel>,
) -> Parsed<Seq<NodeModel>> {
    until_loop(toks, st, end, start, iter, body)
}

#[verifier::opaque]
pub open spec fn block_rest(
    toks: Seq<TokenModel>,
    st: PState,
    name: Seq<char>,
    start: int,
    iter: nat,
    body: Seq<NodeModel>,
    sup: bool,
) -> Parsed<(Seq<NodeModel>, bool)> {
    block_loop(toks, st, name, start, iter, body, sup)
}

#[verifier::opaque]
pub open spec fn if_rest(toks: Seq<TokenModel>, st: PState, start: int, iter: nat, p: IfParts) -> Parsed<
    IfParts,
> {
    if_loop(toks, st, start, iter, p)
}

#[verifier::opaque]
pub open spec fn two_rest(
    toks: Seq<TokenModel>,
    st: PState,
    end: Seq<char>,
    alt: Seq<char>,
    start: int,
    iter: nat,
    main: Seq<NodeModel>,
    other: Option<Seq<NodeModel>>,
    in_other: bool,
) -> Parsed<(Seq<NodeModel>, Option<Seq<NodeModel>>)> {
    two_loop(toks, st, end, alt, start, iter, main, other, in_other)
}

#[verifier::opaque]
pub open spec fn comment_rest(toks: Seq<TokenModel>, st: PState, text: Seq<char>) -> Parsed<
    Seq<char>,
> {
    comment_loop(toks, st, text)
}

#[verifier::opaque]
pub open spec fn top_rest(toks: Seq<TokenModel>, st: PState, iter: nat, nodes: Seq<NodeModel>) -> Parsed<
    Seq<NodeModel>,
> {
    top_loop(toks, st, iter, nodes)
}

pub proof fn lemma_p_until(toks: Seq<TokenModel>, st: PState, end: Seq<char>)
    ensures
        p_until(toks, st, end) == (if depth_exceeded(st) {
            Parsed::Fail(deeper(st))
        } else {
            match until_rest(toks, deeper(st), end, st.pos, 0, seq![]) {
                Parsed::Done(s, body) => Parsed::Done(shallower(s), body),
                Parsed::Fail(s) => Parsed::Fail(s),
                Parsed::Abort => Parsed::Abort,
            }
        }),
{
    reveal(until_rest);
}

pub proof fn lemma_p_block(toks: Seq<TokenModel>, st: PState, content: Seq<char>, raw: Seq<char>)
    ensures
        p_block(toks, st, content, raw) == (if depth_exceeded(st) {
            Parsed::Fail(deeper(st))
        } else {
            let name = after(content, "block"@);
            match block_rest(toks, deeper(st), name, st.pos, 0, seq![], false) {
                Parsed::Done(s, (body, sup)) => Parsed::Done(
                    shallower(s),
                    Some(NodeModel::Block { raw, name, content: body, has_super_reference: sup }),
                ),
                Parsed::Fail(s) => Parsed::Fail(s),
                Parsed::Abort => Parsed::Abort,
            }
        }),
{
    reveal(block_rest);
}

pub proof fn lemma_p_if(toks: Seq<TokenModel>, st: PState, content: Seq<char>, raw: Seq<char>)
    ensures
        p_if(toks, st, content, raw) == (if depth_exceeded(st) {
            Parsed::Fail(deeper(st))
        } else {
            let parts0 = IfParts { true_branch: seq![], elifs: seq![], else_branch: None, phase: 0 };
            match if_rest(toks, deeper(st), st.pos, 0, parts0) {
                Parsed::Done(s, p) => Parsed::Done(
                    shallower(s),
                    Some(
                        NodeModel::If {
                            raw,
                            condition: after(content, "if"@),
                            true_branch: p.true_branch,
                            elif_branches: p.elifs,
                            else_branch: p.else_branch,
                        },
                    ),
                ),
                Parsed::Fail(s) => Parsed::Fail(s),
                Parsed::Abort => Parsed::Abort,
            }
        }),
{
    reveal(if_rest);
}

pub proof fn lemma_p_for(toks: Seq<TokenModel>, st: PState, content: Seq<char>, raw: Seq<char>)
    ensures
        p_for(toks, st, content, raw) == (if depth_exceeded(st) {
            Parsed::Fail(deeper(st))
        } else {
            let (variable, iterable) = for_parts(content);
            let st1 = if variable.len() == 0 || iterable.len() == 0 {
                warn(deeper(st), "Malformed for tag: '"@ + content + "'"@, st.pos - 1)
            } else {
                deeper(st)
            };
            match two_rest(toks, st1, "for"@, "empty"@, st.pos, 0, seq![], None, false) {
                Parsed::Done(s, (body, empty)) => Parsed::Done(
                    shallower(s),
                    Some(NodeModel::For { raw, variable, iterable, body, empty_branch: empty }),
                ),
                Parsed::Fail(s) => Parsed::Fail(s),
                Parsed::Abort => Parsed::Abort,
            }
        }),
{
    reveal(two_rest);
}

pub proof fn lemma_p_ifchanged(toks: Seq<TokenModel>, st: PState, content: Seq<char>, raw: Seq<char>)
    ensures
        p_ifchanged(toks, st, content, raw) == (if depth_exceeded(st) {
            Parsed::Fail(deeper(st))
        } else {
            let condition = after(content, "ifchanged"@);
            match two_rest(toks, deeper(st), "ifchanged"@, "else"@, st.pos, 0, seq![], None, false) {
                Parsed::Done(s, (main, other)) => Parsed::Done(
                    shallower(s),
                    Some(
                        NodeModel::Ifchanged {
                            raw,
                            condition: if condition.len() == 0 {
                                None
                            } else {
                                Some(condition)
                            },
                            true_branch: main,
                            else_branch: other,
                        },
                    ),
                ),
                Parsed::Fail(s) => Parsed::Fail(s),
                Parsed::Abort => Parsed::Abort,
            }
        }),
{
    reveal(two_rest);
}

pub proof fn lemma_p_comment(toks: Seq<TokenModel>, st: PState, raw: Seq<char>)
    ensures
        p_comment(toks, st, raw) == (if depth_exceeded(st) {
            Parsed::Fail(deeper(st))
        } else {
            match comment_rest(toks, deeper(st), seq![]) {
                Parsed::Done(s, text) => Parsed::Done(
                    shallower(s),
                    Some(NodeModel::CommentBlock { raw, content: text }),
                ),
                Parsed::Fail(s) => Parsed::Fail(s),
                Parsed::Abort => Parsed::Abort,
            }
        }),
{
    reveal(comment_rest);
}

// ---------------------------------------------------------------------------
// One step of each parser loop
// ---------------------------------------------------------------------------
pub proof fn lemma_until_step(
    toks: Seq<TokenModel>,
    st: PState,
    end: Seq<char>,
    start: int,
    iter: nat,
    body: Seq<NodeModel>,
)
    requires
        !(until_rest(toks, st, end, start, iter, body) is Abort),
    ensures
        iter + 1 <= PARSE_ITERATIONS_MAX,
        done(toks, st.pos) ==> until_rest(toks, st, end, start, iter, body) == Parsed::Done(
            warn(
                st,
                "Unclosed '"@ + end + "' tag (opened at token "@ + crate::text::decimal(start as nat)
                    + ")"@,
                start,
            ),
            body,
        ),
        !done(toks, st.pos) && is_end(toks[st.pos], end) ==> until_rest(
            toks,
            st,
            end,
            start,
            iter,
            body,
        ) == Parsed::Done(adv(toks, st), body),
        !done(toks, st.pos) && !is_end(toks[st.pos], end) ==> !(node_step(toks, st) is Abort) && match node_step(toks, st) {
            Parsed::Done(s, Some(n)) => moved(toks, st.pos, s.pos) ==> until_rest(
                toks,
                st,
                end,
                start,
                iter,
                body,
            ) == until_rest(toks, s, end, start, iter + 1, body.push(n)),
            Parsed::Done(s, None) => {
                let s2 = if s.pos == st.pos {
                    adv(toks, warn(s, "Skipped unparseable token inside '"@ + end + "'"@, st.pos))
                } else {
                    s
                };
                moved(toks, st.pos, s2.pos) ==> until_rest(toks, st, end, start, iter, body)
                    == until_rest(toks, s2, end, start, iter + 1, body)
            },
            Parsed::Fail(s) => {
                let s2 = if s.pos == st.pos {
                    adv(
                        toks,
                        error(s, "Error parsing child of '"@ + end + "', skipping token"@, st.pos),
                    )
                } else {
                    s
                };
                moved(toks, st.pos, s2.pos) ==> until_rest(toks, st, end, start, iter, body)
                    == until_rest(toks, s2, end, start, iter + 1, body)
            },
            Parsed::Abort => false,
        },
{
    reveal(until_rest);
    reveal(node_step);
    if !done(toks, st.pos) && !is_end(toks[st.pos], end) {
        match node_step(toks, st) {
            Parsed::Done(s, o) => {},
            Parsed::Fail(s) => {},
            Parsed::Abort => {},
        }
    }
}

pub proof fn lemma_block_step(
    toks: Seq<TokenModel>,
    st: PState,
    name: Seq<char>,
    start: int,
    iter: nat,
    body: Seq<NodeModel>,
    sup: bool,
)
    requires
        !(block_rest(toks, st, name, start, iter, body, sup) is Abort),
    ensures
        iter + 1 <= PARSE_ITERATIONS_MAX,
        done(toks, st.pos) ==> block_rest(toks, st, name, start, iter, body, sup) == Parsed::Done(
            warn(
                st,
                "Unclosed block '"@ + name + "' (opened at token "@ + crate::text::decimal(
                    start as nat,
                ) + ")"@,
                start,
            ),
            (body, sup),
        ),
        !done(toks, st.pos) && is_end(toks[st.pos], "block"@) ==> block_rest(
            toks,
            st,
            name,
            start,
            iter,
            body,
            sup,
        ) == Parsed::Done(adv(toks, st), (body, sup)),
        !done(toks, st.pos) && !is_end(toks[st.pos], "block"@) ==> !(node_step(toks, st) is Abort)
            && match node_step(toks, st) {
            Parsed::Done(s, o) => {
                let body2 = match o {
                    Some(n) => body.push(n),
                    None => body,
                };
                let sup2 = match o {
                    Some(n) => sup || is_super(n),
                    None => sup,
                };
                let s2 = unstuck(toks, s, st.pos);
                moved(toks, st.pos, s2.pos) ==> block_rest(toks, st, name, start, iter, body, sup)
                    == block_rest(toks, s2, name, start, iter + 1, body2, sup2)
            },
            Parsed::Fail(s) => block_rest(toks, st, name, start, iter, body, sup) == Parsed::<
                (Seq<NodeModel>, bool),
            >::Fail(s),
            Parsed::Abort => false,
        },
{
    reveal(block_rest);
    reveal(node_step);
    if !done(toks, st.pos) && !is_end(toks[st.pos], "block"@) {
        match node_step(toks, st) {
            Parsed::Done(s, o) => {
                let body2 = match o {
                    Some(n) => body.push(n),
                    None => body,
                };
                let sup2 = match o {
                    Some(n) => sup || is_super(n),
                    None => sup,
                };
                let s2 = unstuck(toks, s, st.pos);
                assert(block_rest(toks, st, name, start, iter, body, sup) == (if moved(toks, st.pos, s2.pos) {
                    block_rest(toks, s2, name, start, iter + 1, body2, sup2)
                } else {
                    Parsed::Done(s2, (body2, sup2))
                }));
            },
            Parsed::Fail(s) => {},
            Parsed::Abort => {},
        }
    }
}

pub proof fn lemma_if_step(toks: Seq<TokenModel>, st: PState, start: int, iter: nat, p: IfParts)
    requires
        !(if_rest(toks, st, start, iter, p) is Abort),
    ensures
        iter + 1 <= PARSE_ITERATIONS_MAX,
        done(toks, st.pos) ==> if_rest(toks, st, start, iter, p) == Parsed::Done(
            warn(
                st,
                "Unclosed if tag (opened at token "@ + crate::text::decimal(start as nat) + ")"@,
                start,
            ),
            p,
        ),
        !done(toks, st.pos) && is_end(toks[st.pos], "if"@) ==> if_rest(toks, st, start, iter, p)
            == Parsed::Done(adv(toks, st), p),
        !done(toks, st.pos) && !is_end(toks[st.pos], "if"@) && is_start(toks[st.pos], "elif"@)
            ==> if_rest(toks, st, start, iter, p) == if_rest(
            toks,
            adv(toks, st),
            start,
            iter + 1,
            IfParts {
                elifs: p.elifs.push(
                    ElifModel {
                        condition: after(toks[st.pos]->BlockStart_content, "elif"@),
                        body: seq![],
                    },
                ),
                phase: 1,
                ..p
            },
        ),
        !done(toks, st.pos) && !is_end(toks[st.pos], "if"@) && !is_start(toks[st.pos], "elif"@)
            && is_start(toks[st.pos], "else"@) && p.phase != 2 ==> if_rest(
            toks,
            st,
            start,
            iter,
            p,
        ) == if_rest(
            toks,
            adv(toks, st),
            start,
            iter + 1,
            IfParts { else_branch: Some(seq![]), phase: 2, ..p },
        ),
        !done(toks, st.pos) && !is_end(toks[st.pos], "if"@) && !is_start(toks[st.pos], "elif"@)
            && !(is_start(toks[st.pos], "else"@) && p.phase != 2) ==> !(node_step(toks, st) is Abort)
            && match node_step(toks, st) {
            Parsed::Done(s, o) => {
                let p2 = match o {
                    Some(n) => if_add(p, n),
                    None => p,
                };
                let s2 = unstuck(toks, s, st.pos);
                moved(toks, st.pos, s2.pos) ==> if_rest(toks, st, start, iter, p) == if_rest(
                    toks,
                    s2,
                    start,
                    iter + 1,
                    p2,
                )
            },
            Parsed::Fail(s) => if_rest(toks, st, start, iter, p) == Parsed::<IfParts>::Fail(s),
            Parsed::Abort => false,
        },
{
    reveal(if_rest);
    reveal(node_step);
    if !done(toks, st.pos) {
        match node_step(toks, st) {
            Parsed::Done(s, o) => match o {
                Some(n) => {},
                None => {},
            },
            Parsed::Fail(s) => {},
            Parsed::Abort => {},
        }
    }
}

pub proof fn lemma_two_step(
    toks: Seq<TokenModel>,
    st: PState,
    end: Seq<char>,
    alt: Seq<char>,
    start: int,
    iter: nat,
    main: Seq<NodeModel>,
    other: Option<Seq<NodeModel>>,
    in_other: bool,
)
    requires
        !(two_rest(toks, st, end, alt, start, iter, main, other, in_other) is Abort),
    ensures
        iter + 1 <= PARSE_ITERATIONS_MAX,
        done(toks, st.pos) ==> two_rest(toks, st, end, alt, start, iter, main, other, in_other)
            == Parsed::Done(
            warn(
                st,
                "Unclosed "@ + end + " tag (opened at token "@ + crate::text::decimal(start as nat)
                    + ")"@,
                start,
            ),
            (main, other),
        ),
        !done(toks, st.pos) && is_end(toks[st.pos], end) ==> two_rest(
            toks,
            st,
            end,
            alt,
            start,
            iter,
            main,
            other,
            in_other,
        ) == Parsed::Done(adv(toks, st), (main, other)),
        !done(toks, st.pos) && !is_end(toks[st.pos], end) && is_start(toks[st.pos], alt)
            && !in_other ==> two_rest(toks, st, end, alt, start, iter, main, other, in_other)
            == two_rest(toks, adv(toks, st), end, alt, start, iter + 1, main, Some(seq![]), true),
        !done(toks, st.pos) && !is_end(toks[st.pos], end) && !(is_start(toks[st.pos], alt)
            && !in_other) ==> !(node_step(toks, st) is Abort) && match node_step(toks, st) {
            Parsed::Done(s, o) => {
                let main2 = match o {
                    Some(n) => if in_other {
                        main
                    } else {
                        main.push(n)
                    },
                    None => main,
                };
                let other2 = match o {
                    Some(n) => if in_other {
                        match other {
                            Some(b) => Some(b.push(n)),
                            None => other,
                        }
                    } else {
                        other
                    },
                    None => other,
                };
                let s2 = unstuck(toks, s, st.pos);
                moved(toks, st.pos, s2.pos) ==> two_rest(
                    toks,
                    st,
                    end,
                    alt,
                    start,
                    iter,
                    main,
                    other,
                    in_other,
                ) == two_rest(toks, s2, end, alt, start, iter + 1, main2, other2, in_other)
            },
            Parsed::Fail(s) => two_rest(toks, st, end, alt, start, iter, main, other, in_other)
                == Parsed::<(Seq<NodeModel>, Option<Seq<NodeModel>>)>::Fail(s),
            Parsed::Abort => false,
        },
{
    reveal(two_rest);
    reveal(node_step);
    if !done(toks, st.pos) {
        match node_step(toks, st) {
            Parsed::Done(s, o) => match o {
                Some(n) => {},
                None => {},
            },
            Parsed::Fail(s) => {},
            Parsed::Abort => {},
        }
    }
}

pub proof fn lemma_comment_step(toks: Seq<TokenModel>, st: PState, text: Seq<char>)
    requires
        !(comment_rest(toks, st, text) is Abort),
    ensures
        done(toks, st.pos) ==> comment_rest(toks, st, text) == Parsed::Done(st, text),
        !done(toks, st.pos) && is_end(toks[st.pos], "comment"@) ==> comment_rest(toks, st, text)
            == Parsed::Done(adv(toks, st), text),
        !done(toks, st.pos) && !is_end(toks[st.pos], "comment"@) ==> !(node_step(toks, st) is Abort)
            && match node_step(toks, st) {
            Parsed::Done(s, o) => {
                let text2 = match o {
                    Some(NodeModel::Text { content }) => text + content,
                    _ => text,
                };
                moved(toks, st.pos, s.pos) ==> comment_rest(toks, st, text) == comment_rest(
                    toks,
                    s,
                    text2,
                )
            },
            Parsed::Fail(s) => comment_rest(toks, st, text) == Parsed::<Seq<char>>::Fail(s),
            Parsed::Abort => false,
        },
{
    reveal(comment_rest);
    reveal(node_step);
    if !done(toks, st.pos) && !is_end(toks[st.pos], "comment"@) {
        match node_step(toks, st) {
            Parsed::Done(s, o) => match o {
                Some(n) => match n {
                    NodeModel::Text { content } => {},
                    _ => {},
                },
                None => {},
            },
            Parsed::Fail(s) => {},
            Parsed::Abort => {},
        }
    }
}

pub proof fn lemma_top_step(toks: Seq<TokenModel>, st: PState, iter: nat, nodes: Seq<NodeModel>)
    requires
        !(top_rest(toks, st, iter, nodes) is Abort),
        !done(toks, st.pos),
    ensures
        iter + 1 <= PARSE_ITERATIONS_MAX,
        !(node_step(toks, st) is Abort),
        match node_step(toks, st) {
            Parsed::Done(s, o) => {
                let nodes2 = match o {
                    Some(n) => nodes.push(n),
                    None => nodes,
                };
                moved(toks, st.pos, s.pos) ==> top_rest(toks, st, iter, nodes) == top_rest(
                    toks,
                    s,
                    iter + 1,
                    nodes2,
                )
            },
            Parsed::Fail(s) => top_rest(toks, st, iter, nodes) == Parsed::<Seq<NodeModel>>::Fail(
                s,
            ),
            Parsed::Abort => false,
        },
{
    reveal(top_rest);
    reveal(node_step);
    match node_step(toks, st) {
        Parsed::Done(s, o) => {},
        Parsed::Fail(s) => {},
        Parsed::Abort => {},
    }
}

/// Whether `content` is within the lexer's and the parser's limits: at most
/// `u32::MAX` bytes, tokens and filters within the lexer's bounds, and a
/// token stream the parser gets through within its iteration bounds.
pub open spec fn parse_fits(content: Seq<char>) -> bool {
    &&& crate::text::utf8_len(content) <= u32::MAX
    &&& !(tokenize_spec(content) is Limit)
    &&& (tokenize_spec(content) matches LexOutcome::Done(t) ==> !(parse_tokens(t) is Abort))
}

/// The tree that `parse` makes of `content`, `None` when it fails.
pub open spec fn parsed_nodes(content: Seq<char>) -> Option<Seq<NodeModel>> {
    match tokenize_spec(content) {
        LexOutcome::Done(t) => match parse_tokens(t) {
            Parsed::Done(_, nodes) => Some(nodes),
            _ => None,
        },
        _ => None,
    }
}

/// `e` is the error that `parse` reports for `content`.
pub open spec fn parse_error_of(content: Seq<char>, e: ParseError) -> bool {
    match tokenize_spec(content) {
        LexOutcome::Done(_) => is_depth_error(e),
        LexOutcome::Failed(le) => e matches ParseError::Generic(m) && m@ == lex_error_text(le),
        LexOutcome::Limit => false,
    }
}

/// Parses a template: lexes it, then parses its tokens.  A lexer error
/// comes back as a generic parse error with the lexer's message.
pub fn parse(content: &str) -> (r: Result<ParseOutput, ParseError>)
    requires
        parse_fits(content@),
    ensures
        match tokenize_spec(content@) {
            LexOutcome::Done(t) => match parse_tokens(t) {
                Parsed::Done(s, nodes) => r is Ok && nodes_view(r->Ok_0.nodes@) == nodes
                    && diags_view(r->Ok_0.diagnostics@) == s.diags,
                Parsed::Fail(_) => r is Err && is_depth_error(r->Err_0),
                Parsed::Abort => false,
            },
            LexOutcome::Failed(e) => r is Err && (r->Err_0 matches ParseError::Generic(m) && m@
                == lex_error_text(e)),
            LexOutcome::Limit => false,
        },
{
    let mut lexer = Lexer::new(content);
    let tokens = match lexer.tokenize() {
        Ok(t) => t,
        Err(e) => {
            return Err(ParseError::Generic(e.to_text()));
        },
    };
    proof {
        lemma_lex_count(content@, 0, 0);
        let n = tokens@.len() as int;
        assert(tokens_view(tokens@)[n - 1] == tokens@[n - 1]@);
    }
    let mut parser = Parser::new(tokens);
    match parser.parse() {
        Ok(nodes) => Ok(ParseOutput { nodes, diagnostics: parser.diagnostics }),
        Err(e) => Err(e),
    }
}

} // verus!
