//! What parsing a token stream means: the syntax tree, the diagnostics and
//! the outcome of the parser, stated over token models.
use vstd::prelude::*;
use crate::compiler::ast::{BindingModel, ElifModel, NodeModel};
use crate::compiler::error::{DiagnosticModel, Severity};
use crate::compiler::lexer::{FilterModel, TokenModel};
use crate::text::{
    contains, decimal, find, split, strip_all, trim, trim_start, unquote, utf8_len, words,
};

verus! {

/// Most iterations a parser loop may take.
pub const PARSE_ITERATIONS_MAX: u32 = 1_000_000;

/// Deepest nesting of block tags the parser accepts.
pub const NESTING_DEPTH_MAX: u32 = 128;

/// Where the parser stands: the token index, the nesting depth and the
/// diagnostics so far.
#[verifier::ext_equal]
pub struct PState {
    pub pos: int,
    pub depth: int,
    pub diags: Seq<DiagnosticModel>,
}

/// The outcome of a parsing step: a value and the new state, a nesting error
/// (with the state it leaves), or an abort where the parser gives up
/// altogether (an iteration limit, or a tag content it cannot slice).
pub enum Parsed<T> {
    Done(PState, T),
    Fail(PState),
    Abort,
}

pub open spec fn done(toks: Seq<TokenModel>, pos: int) -> bool {
    pos < 0 || pos >= toks.len() || toks[pos] is Eof
}

/// The state moved one token on, unless the stream is done.
pub open spec fn adv(toks: Seq<TokenModel>, st: PState) -> PState {
    if done(toks, st.pos) {
        st
    } else {
        PState { pos: st.pos + 1, ..st }
    }
}

pub open spec fn note(st: PState, severity: Severity, message: Seq<char>, at: int) -> PState {
    PState {
        diags: st.diags.push(DiagnosticModel { message, severity, position: at as u32 }),
        ..st
    }
}

pub open spec fn warn(st: PState, message: Seq<char>, at: int) -> PState {
    note(st, Severity::Warning, message, at)
}

pub open spec fn error(st: PState, message: Seq<char>, at: int) -> PState {
    note(st, Severity::Error, message, at)
}

/// `trim(strip_all(content, keyword))`: the argument text of a tag.
pub open spec fn after(content: Seq<char>, keyword: Seq<char>) -> Seq<char> {
    trim(strip_all(content, keyword))
}

pub open spec fn nth_or(parts: Seq<Seq<char>>, i: int, default: Seq<char>) -> Seq<char> {
    if 0 <= i < parts.len() {
        parts[i]
    } else {
        default
    }
}

// ---------------------------------------------------------------------------
// Scanning inside tag contents
// ---------------------------------------------------------------------------
pub open spec fn is_blank(c: char) -> bool {
    c == ' ' || c == '\t'
}

pub open spec fn is_quote(c: char) -> bool {
    c == '\'' || c == '"'
}

/// First index at or after `i` that holds no space or tab.
pub open spec fn skip_blank(s: Seq<char>, i: int) -> int
    decreases s.len() - i,
{
    if 0 <= i < s.len() && is_blank(s[i]) {
        skip_blank(s, i + 1)
    } else {
        i
    }
}

/// First index at or after `i` that holds a space or a tab.
pub open spec fn scan_word(s: Seq<char>, i: int) -> int
    decreases s.len() - i,
{
    if 0 <= i < s.len() && !is_blank(s[i]) {
        scan_word(s, i + 1)
    } else {
        i
    }
}

/// First index at or after `i` that holds `=`, a space or a tab.
pub open spec fn scan_name(s: Seq<char>, i: int) -> int
    decreases s.len() - i,
{
    if 0 <= i < s.len() && !is_blank(s[i]) && s[i] != '=' {
        scan_name(s, i + 1)
    } else {
        i
    }
}

/// Past the quote `q` closing a quoted run that starts at `i`, or the end.
pub open spec fn close_quote(s: Seq<char>, i: int, q: char) -> int
    decreases s.len() - i,
{
    if i < 0 || i >= s.len() {
        i
    } else if s[i] == q {
        i + 1
    } else {
        close_quote(s, i + 1, q)
    }
}

pub proof fn lemma_close_quote(s: Seq<char>, i: int, q: char)
    requires
        0 <= i <= s.len(),
    ensures
        i <= close_quote(s, i, q) <= s.len(),
    decreases s.len() - i,
{
    if i < s.len() && s[i] != q {
        lemma_close_quote(s, i + 1, q);
    }
}

/// End of an unquoted value starting at `i`: the next space or tab outside
/// quotes.
pub open spec fn scan_unquoted(s: Seq<char>, i: int) -> int
    decreases s.len() - i,
{
    if i < 0 || i >= s.len() || is_blank(s[i]) {
        i
    } else if is_quote(s[i]) {
        proof {
            lemma_close_quote(s, i + 1, s[i]);
        }
        scan_unquoted(s, close_quote(s, i + 1, s[i]))
    } else {
        scan_unquoted(s, i + 1)
    }
}

/// End of a binding value starting at `i`.
pub open spec fn scan_value(s: Seq<char>, i: int) -> int {
    if 0 <= i < s.len() && is_quote(s[i]) {
        close_quote(s, i + 1, s[i])
    } else {
        scan_unquoted(s, i)
    }
}

/// End of the leading path of an include: a quoted string with its quotes,
/// or the run up to the first space or tab.
pub open spec fn path_end(s: Seq<char>) -> int {
    if s.len() == 0 {
        0
    } else if is_quote(s[0]) {
        close_quote(s, 1, s[0])
    } else {
        scan_word(s, 0)
    }
}

/// The UTF-8 encoding of `t` is at least `n` bytes long, and byte `n` falls
/// inside a character.
pub open spec fn cuts_char(t: Seq<char>, n: nat) -> bool {
    utf8_len(t) >= n && forall|k: int| 0 <= k <= t.len() ==> utf8_len(#[trigger] t.take(k)) != n
}

pub open spec fn is_only_word(s: Seq<char>, i: int) -> bool {
    &&& 0 <= i
    &&& i + 4 <= s.len()
    &&& s.subrange(i, i + 4) == "only"@
    &&& (i + 4 == s.len() || is_blank(s[i + 4]))
}

/// `name=value` bindings of `s` from index `pos` on, and whether an `only`
/// word ends them; `None` where the parser gives up.
pub open spec fn bindings_from(
    s: Seq<char>,
    pos: int,
    iter: nat,
    acc: Seq<BindingModel>,
) -> Option<(Seq<BindingModel>, bool)>
    decreases s.len() - pos,
{
    if pos < 0 || pos >= s.len() {
        Some((acc, false))
    } else if iter + 1 > PARSE_ITERATIONS_MAX {
        None
    } else {
        let p1 = skip_blank(s, pos);
        if p1 >= s.len() {
            Some((acc, false))
        } else if cuts_char(s.skip(p1), 4) {
            None
        } else if is_only_word(s, p1) {
            Some((acc, true))
        } else {
            let p2 = scan_name(s, p1);
            if p2 >= s.len() || s[p2] != '=' {
                let p3 = scan_word(s, p2);
                if pos < p3 <= s.len() {
                    bindings_from(s, p3, iter + 1, acc)
                } else {
                    Some((acc, false))
                }
            } else if p2 + 1 >= s.len() {
                Some((acc, false))
            } else {
                let p5 = scan_value(s, p2 + 1);
                let b = BindingModel { name: s.subrange(p1, p2), value: s.subrange(p2 + 1, p5) };
                if pos < p5 <= s.len() {
                    bindings_from(s, p5, iter + 1, acc.push(b))
                } else {
                    Some((acc.push(b), false))
                }
            }
        }
    }
}

pub open spec fn bindings_of(s: Seq<char>) -> Option<(Seq<BindingModel>, bool)> {
    bindings_from(s, 0, 0, seq![])
}

// ---------------------------------------------------------------------------
// Nodes of tags without a body
// ---------------------------------------------------------------------------
/// Index of the first filter named `json_script`.
pub open spec fn json_filter_from(fs: Seq<FilterModel>, i: int) -> Option<int>
    decreases fs.len() - i,
{
    if i < 0 || i >= fs.len() {
        None
    } else if fs[i].name == "json_script"@ {
        Some(i)
    } else {
        json_filter_from(fs, i + 1)
    }
}

/// The text before the first `|`.
pub open spec fn before_bar(e: Seq<char>) -> Seq<char> {
    match find(e, "|"@) {
        Some(i) => e.take(i),
        None => e,
    }
}

/// The node of a `{{ variable }}` token: a `json_script` node when its
/// first `json_script` filter has an argument, else a variable node.
pub open spec fn variable_node(
    expression: Seq<char>,
    filters: Seq<FilterModel>,
    raw: Seq<char>,
) -> NodeModel {
    match json_filter_from(filters, 0) {
        Some(i) if filters[i].arguments.len() > 0 => NodeModel::JsonScript {
            raw,
            variable: trim(before_bar(expression)),
            id: unquote(filters[i].arguments[0]),
        },
        _ => NodeModel::Variable { raw, expression, filters },
    }
}

pub open spec fn extends_path(content: Seq<char>) -> Seq<char> {
    unquote(after(content, "extends"@))
}

/// The include tag: its path, its bindings and whether it is `only`;
/// `None` where the parser gives up on the bindings.
pub open spec fn include_parts(content: Seq<char>) -> Option<(Seq<char>, Seq<BindingModel>, bool)> {
    let remainder = after(content, "include"@);
    let end = path_end(remainder);
    let path = unquote(remainder.take(end));
    let rest = trim(remainder.skip(end));
    if rest == "only"@ {
        Some((path, seq![], true))
    } else if rest.len() >= 4 && rest.take(4) == "with"@ && (rest.len() == 4 || is_blank(
        rest[4],
    )) {
        let r = trim_start(rest.skip(4));
        if r == "only"@ {
            Some((path, seq![], true))
        } else if r.len() == 0 {
            Some((path, seq![], false))
        } else {
            match bindings_of(r) {
                Some((b, only)) => Some((path, b, only)),
                None => None,
            }
        }
    } else {
        Some((path, seq![], false))
    }
}

/// `value`, `maximum`, `divisor` of widthratio, with their defaults.
pub open spec fn cycle_from(
    parts: Seq<Seq<char>>,
    i: int,
    values: Seq<Seq<char>>,
    as_variable: Option<Seq<char>>,
    output: bool,
) -> (Seq<Seq<char>>, Option<Seq<char>>, bool)
    decreases parts.len() - i,
{
    if i < 0 || i >= parts.len() {
        (values, as_variable, output)
    } else if parts[i] == "as"@ && i + 1 < parts.len() {
        cycle_from(parts, i + 2, values, Some(parts[i + 1]), false)
    } else {
        cycle_from(parts, i + 1, values.push(unquote(parts[i])), as_variable, output)
    }
}

pub open spec fn cycle_node(content: Seq<char>, raw: Seq<char>) -> NodeModel {
    let r = cycle_from(words(strip_all(content, "cycle"@)), 0, seq![], None, true);
    NodeModel::Cycle { raw, values: r.0, as_variable: r.1, output: r.2 }
}

/// The name after ` as `, when the content holds one.
pub open spec fn as_name(content: Seq<char>) -> Option<Seq<char>> {
    if contains(content, " as "@) {
        Some(trim(nth_or(split(content, " as "@), 1, seq![])))
    } else {
        None
    }
}

/// The name after ` as `, when the content splits in exactly two there.
pub open spec fn as_pair_name(content: Seq<char>) -> Option<Seq<char>> {
    let parts = split(content, " as "@);
    if parts.len() == 2 {
        Some(trim(parts[1]))
    } else {
        None
    }
}

/// `key=value` pairs among the words of `parts`, split at the first `=`.
pub open spec fn key_values(parts: Seq<Seq<char>>) -> Seq<BindingModel>
    decreases parts.len(),
{
    if parts.len() == 0 {
        seq![]
    } else {
        let rest = key_values(parts.drop_last());
        let w = parts.last();
        match find(w, "="@) {
            Some(k) => rest.push(BindingModel { name: w.take(k), value: w.skip(k + 1) }),
            None => rest,
        }
    }
}

pub open spec fn querystring_node(content: Seq<char>, raw: Seq<char>) -> NodeModel {
    let body = after(split(content, " as "@)[0], "querystring"@);
    NodeModel::Querystring {
        raw,
        parameters: key_values(words(body)),
        variable_name: as_pair_name(content),
    }
}

pub open spec fn translate_node(content: Seq<char>, raw: Seq<char>) -> NodeModel {
    let body = after(split(content, " as "@)[0], "translate"@);
    NodeModel::Translate {
        raw,
        message: unquote(body),
        variable_name: as_pair_name(content),
        noop: contains(body, "noop"@),
    }
}

/// `url` and `static` tags with an ` as ` name capture their output.
pub open spec fn capture_node(tag: Seq<char>, content: Seq<char>, raw: Seq<char>) -> Option<
    NodeModel,
> {
    let parts = split(content, " as "@);
    if parts.len() == 2 {
        Some(
            NodeModel::CaptureAs {
                raw,
                tag,
                content: trim(parts[0]),
                variable_name: trim(parts[1]),
            },
        )
    } else {
        None
    }
}

pub open spec fn for_parts(content: Seq<char>) -> (Seq<char>, Seq<char>) {
    let parts = split(after(content, "for"@), " in "@);
    (nth_or(parts, 0, seq![]), nth_or(parts, 1, seq![]))
}

/// The node of a tag without a body, and whether the tag is one of those.
pub open spec fn leaf_node(tag: Seq<char>, content: Seq<char>, raw: Seq<char>) -> Option<NodeModel> {
    if tag == "extends"@ {
        Some(NodeModel::Extends { raw, parent_path: extends_path(content) })
    } else if tag == "load"@ {
        Some(NodeModel::Load { raw, libraries: words(strip_all(content, "load"@)) })
    } else if tag == "csrf_token"@ {
        Some(NodeModel::Csrftoken { raw })
    } else if tag == "translate"@ {
        Some(translate_node(content, raw))
    } else if tag == "trans"@ {
        Some(NodeModel::Trans { raw, message: unquote(after(content, "trans"@)) })
    } else if tag == "templatetag"@ {
        Some(NodeModel::TemplateTag { raw, format: unquote(after(content, "templatetag"@)) })
    } else if tag == "now"@ {
        Some(NodeModel::Now { raw, format: unquote(after(content, "now"@)) })
    } else if tag == "cycle"@ {
        Some(cycle_node(content, raw))
    } else if tag == "firstof"@ {
        Some(
            NodeModel::Firstof {
                raw,
                variables: words(strip_all(content, "firstof"@)).map_values(
                    |w: Seq<char>| unquote(w),
                ),
            },
        )
    } else if tag == "widthratio"@ {
        let parts = words(strip_all(content, "widthratio"@));
        Some(
            NodeModel::Widthratio {
                raw,
                value: nth_or(parts, 0, "0"@),
                maximum: nth_or(parts, 1, "0"@),
                divisor: nth_or(parts, 2, "100"@),
            },
        )
    } else if tag == "url"@ {
        match capture_node("url"@, content, raw) {
            Some(n) => Some(n),
            None => Some(NodeModel::Text { content: raw }),
        }
    } else if tag == "static"@ {
        match capture_node("static"@, content, raw) {
            Some(n) => Some(n),
            None => Some(NodeModel::Static { raw, path: unquote(after(content, "static"@)) }),
        }
    } else if tag == "debug"@ {
        Some(NodeModel::Debug { raw })
    } else if tag == "get_static_prefix"@ {
        Some(NodeModel::GetStaticPrefix { raw, variable_name: as_name(content) })
    } else if tag == "get_media_prefix"@ {
        Some(NodeModel::GetMediaPrefix { raw, variable_name: as_name(content) })
    } else if tag == "resetcycle"@ {
        Some(NodeModel::Resetcycle { raw, name: after(content, "resetcycle"@) })
    } else if tag == "lorem"@ {
        let parts = words(strip_all(content, "lorem"@));
        Some(
            NodeModel::Lorem {
                raw,
                count: nth_or(parts, 0, "1"@),
                method: nth_or(parts, 1, "i"@),
                random: parts.len() > 2 && parts[2] == "r"@,
            },
        )
    } else if tag == "querystring"@ {
        Some(querystring_node(content, raw))
    } else if tag == "plural"@ {
        Some(NodeModel::Plural { raw, content: after(content, "plural"@) })
    } else if tag == "regroup"@ {
        let parts = words(after(content, "regroup"@));
        Some(
            NodeModel::Regroup {
                raw,
                list: nth_or(parts, 0, seq![]),
                field: nth_or(parts, 2, seq![]),
                as_variable: nth_or(parts, 4, seq![]),
            },
        )
    } else {
        None
    }
}

/// The tags whose body runs to their end tag and is parsed by `p_until`;
/// the node is built from the body afterwards.
pub open spec fn is_body_tag(tag: Seq<char>) -> bool {
    ||| tag == "with"@
    ||| tag == "autoescape"@
    ||| tag == "blocktranslate"@
    ||| tag == "language"@
    ||| tag == "filter"@
    ||| tag == "cache"@
    ||| tag == "localize"@
    ||| tag == "localtime"@
    ||| tag == "spaceless"@
    ||| tag == "timezone"@
    ||| tag == "utc"@
}

/// The node of a body tag around its parsed `body`; `bindings` are those of
/// a `with` tag.
pub open spec fn body_node(
    tag: Seq<char>,
    content: Seq<char>,
    raw: Seq<char>,
    bindings: Seq<BindingModel>,
    body: Seq<NodeModel>,
) -> NodeModel {
    if tag == "with"@ {
        NodeModel::With { raw, bindings, body }
    } else if tag == "autoescape"@ {
        NodeModel::Autoescape { raw, value: after(content, "autoescape"@), body }
    } else if tag == "blocktranslate"@ {
        NodeModel::Blocktranslate { raw, body, modifiers: seq![] }
    } else if tag == "language"@ {
        NodeModel::Language { raw, language: unquote(after(content, "language"@)), body }
    } else if tag == "filter"@ {
        NodeModel::FilterBlock { raw, filter: after(content, "filter"@), body }
    } else if tag == "cache"@ {
        let parts = words(after(content, "cache"@));
        NodeModel::Cache { raw, timeout: nth_or(parts, 0, seq![]), name: nth_or(parts, 1, seq![]), body }
    } else if tag == "localize"@ {
        NodeModel::Localize { raw, value: after(content, "localize"@), body }
    } else if tag == "localtime"@ {
        NodeModel::Localtime { raw, value: after(content, "localtime"@), body }
    } else if tag == "spaceless"@ {
        NodeModel::Spaceless { raw, body }
    } else if tag == "timezone"@ {
        NodeModel::Timezone { raw, timezone: unquote(after(content, "timezone"@)), body }
    } else {
        NodeModel::Utc { raw, body }
    }
}

/// `body` with the node `o` appended, if there is one.
pub open spec fn push_opt(body: Seq<NodeModel>, o: Option<NodeModel>) -> Seq<NodeModel> {
    match o {
        Some(n) => body.push(n),
        None => body,
    }
}

pub open spec fn is_super(n: NodeModel) -> bool {
    n matches NodeModel::Variable { expression, .. } && trim(expression) == "block.super"@
}

pub open spec fn is_end(t: TokenModel, name: Seq<char>) -> bool {
    t matches TokenModel::BlockEnd { tag, .. } && tag == name
}

pub open spec fn is_start(t: TokenModel, name: Seq<char>) -> bool {
    t matches TokenModel::BlockStart { tag, .. } && tag == name
}

pub open spec fn depth_exceeded(st: PState) -> bool {
    st.depth + 1 > NESTING_DEPTH_MAX
}

pub open spec fn deeper(st: PState) -> PState {
    PState { depth: st.depth + 1, ..st }
}

pub open spec fn shallower(st: PState) -> PState {
    PState { depth: st.depth - 1, ..st }
}

/// The state after a loop step that parsed from `mark`: moved one token on
/// if the step did not move.
pub open spec fn unstuck(toks: Seq<TokenModel>, st: PState, mark: int) -> PState {
    if st.pos == mark {
        adv(toks, st)
    } else {
        st
    }
}

pub open spec fn moved(toks: Seq<TokenModel>, from: int, to: int) -> bool {
    from < to <= toks.len()
}

// ---------------------------------------------------------------------------
// The parser
// ---------------------------------------------------------------------------
/// One node from `st.pos`; `None` at the end of the stream.
pub open spec fn p_node(toks: Seq<TokenModel>, st: PState) -> Parsed<Option<NodeModel>>
    decreases toks.len() - st.pos, 0nat,
{
    if done(toks, st.pos) {
        Parsed::Done(st, None)
    } else {
        let st1 = PState { pos: st.pos + 1, ..st };
        match toks[st.pos] {
            TokenModel::Text(c) => Parsed::Done(st1, Some(NodeModel::Text { content: c })),
            TokenModel::Variable { raw, expression, filters } => Parsed::Done(
                st1,
                Some(variable_node(expression, filters, raw)),
            ),
            TokenModel::BlockStart { raw, tag, content } => p_tag(toks, st1, tag, content, raw),
            TokenModel::BlockEnd { raw, .. } => Parsed::Done(
                st1,
                Some(NodeModel::Text { content: raw }),
            ),
            TokenModel::Comment(c) => Parsed::Done(
                st1,
                Some(NodeModel::Text { content: "{# "@ + c + " #}"@ }),
            ),
            TokenModel::Eof => Parsed::Done(st, None),
        }
    }
}

/// The node of a tag whose opening token was just consumed.
pub open spec fn p_tag(
    toks: Seq<TokenModel>,
    st: PState,
    tag: Seq<char>,
    content: Seq<char>,
    raw: Seq<char>,
) -> Parsed<Option<NodeModel>>
    decreases toks.len() - st.pos, 3nat,
{
    if tag == "block"@ {
        p_block(toks, st, content, raw)
    } else if tag == "if"@ {
        p_if(toks, st, content, raw)
    } else if tag == "for"@ {
        p_for(toks, st, content, raw)
    } else if tag == "ifchanged"@ {
        p_ifchanged(toks, st, content, raw)
    } else if tag == "comment"@ {
        p_comment(toks, st, raw)
    } else if tag == "include"@ {
        match include_parts(content) {
            None => Parsed::Abort,
            Some((path, bindings, only)) => Parsed::Done(
                if path.len() == 0 {
                    error(st, "{% include %} tag has empty path"@, st.pos - 1)
                } else {
                    st
                },
                Some(NodeModel::Include { raw, path, with_variables: bindings, only }),
            ),
        }
    } else if tag == "extends"@ {
        Parsed::Done(
            if extends_path(content).len() == 0 {
                error(st, "{% extends %} tag has empty path"@, st.pos - 1)
            } else {
                st
            },
            leaf_node(tag, content, raw),
        )
    } else if tag == "verbatim"@ {
        if 0 <= st.pos < toks.len() && toks[st.pos] is Text {
            Parsed::Done(
                PState { pos: st.pos + 1, ..st },
                Some(NodeModel::Verbatim { raw, content: toks[st.pos]->Text_0 }),
            )
        } else {
            Parsed::Done(st, Some(NodeModel::Verbatim { raw, content: seq![] }))
        }
    } else if is_body_tag(tag) {
        let bindings = if tag == "with"@ {
            bindings_of(after(content, "with"@))
        } else {
            Some((seq![], false))
        };
        match bindings {
            None => Parsed::Abort,
            Some((b, _)) => match p_until(toks, st, tag) {
                Parsed::Done(s, body) => Parsed::Done(s, Some(body_node(tag, content, raw, b, body))),
                Parsed::Fail(s) => Parsed::Fail(s),
                Parsed::Abort => Parsed::Abort,
            },
        }
    } else {
        match leaf_node(tag, content, raw) {
            Some(n) => Parsed::Done(st, Some(n)),
            None => Parsed::Done(st, Some(NodeModel::Text { content: raw })),
        }
    }
}

/// Nodes up to the end tag `end`, errors of children recovered from.
pub open spec fn p_until(toks: Seq<TokenModel>, st: PState, end: Seq<char>) -> Parsed<
    Seq<NodeModel>,
>
    decreases toks.len() - st.pos, 2nat,
{
    if depth_exceeded(st) {
        Parsed::Fail(deeper(st))
    } else {
        match until_loop(toks, deeper(st), end, st.pos, 0, seq![]) {
            Parsed::Done(s, body) => Parsed::Done(shallower(s), body),
            Parsed::Fail(s) => Parsed::Fail(s),
            Parsed::Abort => Parsed::Abort,
        }
    }
}

pub open spec fn until_loop(
    toks: Seq<TokenModel>,
    st: PState,
    end: Seq<char>,
    start: int,
    iter: nat,
    body: Seq<NodeModel>,
) -> Parsed<Seq<NodeModel>>
    decreases toks.len() - st.pos, 1nat,
{
    if iter + 1 > PARSE_ITERATIONS_MAX {
        Parsed::Abort
    } else if done(toks, st.pos) {
        Parsed::Done(
            warn(
                st,
                "Unclosed '"@ + end + "' tag (opened at token "@ + decimal(start as nat) + ")"@,
                start,
            ),
            body,
        )
    } else if is_end(toks[st.pos], end) {
        Parsed::Done(adv(toks, st), body)
    } else {
        let mark = st.pos;
        let (s2, body2) = match p_node(toks, st) {
            Parsed::Done(s, Some(n)) => (s, body.push(n)),
            Parsed::Done(s, None) => (
                if s.pos == mark {
                    adv(
                        toks,
                        warn(s, "Skipped unparseable token inside '"@ + end + "'"@, mark),
                    )
                } else {
                    s
                },
                body,
            ),
            Parsed::Fail(s) => (
                if s.pos == mark {
                    adv(
                        toks,
                        error(
                            s,
                            "Error parsing child of '"@ + end + "', skipping token"@,
                            mark,
                        ),
                    )
                } else {
                    s
                },
                body,
            ),
            Parsed::Abort => (st, body),
        };
        if p_node(toks, st) is Abort {
            Parsed::Abort
        } else if moved(toks, mark, s2.pos) {
            until_loop(toks, s2, end, start, iter + 1, body2)
        } else {
            Parsed::Done(s2, body2)
        }
    }
}

pub open spec fn p_block(toks: Seq<TokenModel>, st: PState, content: Seq<char>, raw: Seq<char>) -> Parsed<
    Option<NodeModel>,
>
    decreases toks.len() - st.pos, 2nat,
{
    if depth_exceeded(st) {
        Parsed::Fail(deeper(st))
    } else {
        let name = after(content, "block"@);
        match block_loop(toks, deeper(st), name, st.pos, 0, seq![], false) {
            Parsed::Done(s, (body, sup)) => Parsed::Done(
                shallower(s),
                Some(NodeModel::Block { raw, name, content: body, has_super_reference: sup }),
            ),
            Parsed::Fail(s) => Parsed::Fail(s),
            Parsed::Abort => Parsed::Abort,
        }
    }
}

pub open spec fn block_loop(
    toks: Seq<TokenModel>,
    st: PState,
    name: Seq<char>,
    start: int,
    iter: nat,
    body: Seq<NodeModel>,
    sup: bool,
) -> Parsed<(Seq<NodeModel>, bool)>
    decreases toks.len() - st.pos, 1nat,
{
    if iter + 1 > PARSE_ITERATIONS_MAX {
        Parsed::Abort
    } else if done(toks, st.pos) {
        Parsed::Done(
            warn(
                st,
                "Unclosed block '"@ + name + "' (opened at token "@ + decimal(start as nat) + ")"@,
                start,
            ),
            (body, sup),
        )
    } else if is_end(toks[st.pos], "block"@) {
        Parsed::Done(adv(toks, st), (body, sup))
    } else {
        match p_node(toks, st) {
            Parsed::Done(s, o) => {
                let body2 = push_opt(body, o);
                let sup2 = sup || (o is Some && is_super(o->Some_0));
                let s2 = unstuck(toks, s, st.pos);
                if moved(toks, st.pos, s2.pos) {
                    block_loop(toks, s2, name, start, iter + 1, body2, sup2)
                } else {
                    Parsed::Done(s2, (body2, sup2))
                }
            },
            Parsed::Fail(s) => Parsed::Fail(s),
            Parsed::Abort => Parsed::Abort,
        }
    }
}

/// The branches of an if tag so far; `phase` 0 is the true branch, 1 the
/// last elif, 2 the else branch.
pub struct IfParts {
    pub true_branch: Seq<NodeModel>,
    pub elifs: Seq<ElifModel>,
    pub else_branch: Option<Seq<NodeModel>>,
    pub phase: nat,
}

pub open spec fn if_add(p: IfParts, n: NodeModel) -> IfParts {
    if p.phase == 0 {
        IfParts { true_branch: p.true_branch.push(n), ..p }
    } else if p.phase == 1 {
        if p.elifs.len() > 0 {
            let last = p.elifs.last();
            IfParts {
                elifs: p.elifs.update(
                    p.elifs.len() - 1,
                    ElifModel { condition: last.condition, body: last.body.push(n) },
                ),
                ..p
            }
        } else {
            p
        }
    } else {
        match p.else_branch {
            Some(b) => IfParts { else_branch: Some(b.push(n)), ..p },
            None => p,
        }
    }
}

pub open spec fn p_if(toks: Seq<TokenModel>, st: PState, content: Seq<char>, raw: Seq<char>) -> Parsed<
    Option<NodeModel>,
>
    decreases toks.len() - st.pos, 2nat,
{
    if depth_exceeded(st) {
        Parsed::Fail(deeper(st))
    } else {
        let parts0 = IfParts { true_branch: seq![], elifs: seq![], else_branch: None, phase: 0 };
        match if_loop(toks, deeper(st), st.pos, 0, parts0) {
            Parsed::Done(s, p) => Parsed::Done(
                shallower(s),
                Some(
                    NodeModel::If {
                        raw,
                        condition: after(content, "if"@),
                        true_branch: p.true_branch,
                        elif_branches: p.elifs,
                        else_branch: p.else_branch,
                    },
                ),
            ),
            Parsed::Fail(s) => Parsed::Fail(s),
            Parsed::Abort => Parsed::Abort,
        }
    }
}

pub open spec fn if_loop(toks: Seq<TokenModel>, st: PState, start: int, iter: nat, p: IfParts) -> Parsed<
    IfParts,
>
    decreases toks.len() - st.pos, 1nat,
{
    if iter + 1 > PARSE_ITERATIONS_MAX {
        Parsed::Abort
    } else if done(toks, st.pos) {
        Parsed::Done(
            warn(st, "Unclosed if tag (opened at token "@ + decimal(start as nat) + ")"@, start),
            p,
        )
    } else if is_end(toks[st.pos], "if"@) {
        Parsed::Done(adv(toks, st), p)
    } else if is_start(toks[st.pos], "elif"@) {
        let cond = after(toks[st.pos]->BlockStart_content, "elif"@);
        if_loop(
            toks,
            adv(toks, st),
            start,
            iter + 1,
            IfParts {
                elifs: p.elifs.push(ElifModel { condition: cond, body: seq![] }),
                phase: 1,
                ..p
            },
        )
    } else if is_start(toks[st.pos], "else"@) && p.phase != 2 {
        if_loop(
            toks,
            adv(toks, st),
            start,
            iter + 1,
            IfParts { else_branch: Some(seq![]), phase: 2, ..p },
        )
    } else {
        match p_node(toks, st) {
            Parsed::Done(s, o) => {
                let p2 = match o {
                    Some(n) => if_add(p, n),
                    None => p,
                };
                let s2 = unstuck(toks, s, st.pos);
                if moved(toks, st.pos, s2.pos) {
                    if_loop(toks, s2, start, iter + 1, p2)
                } else {
                    Parsed::Done(s2, p2)
                }
            },
            Parsed::Fail(s) => Parsed::Fail(s),
            Parsed::Abort => Parsed::Abort,
        }
    }
}

/// A loop with a main branch and an alternative branch opened once by the
/// tag `alt` (`empty` in for, `else` in ifchanged).
pub open spec fn two_loop(
    toks: Seq<TokenModel>,
    st: PState,
    end: Seq<char>,
    alt: Seq<char>,
    start: int,
    iter: nat,
    main: Seq<NodeModel>,
    other: Option<Seq<NodeModel>>,
    in_other: bool,
) -> Parsed<(Seq<NodeModel>, Option<Seq<NodeModel>>)>
    decreases toks.len() - st.pos, 1nat,
{
    if iter + 1 > PARSE_ITERATIONS_MAX {
        Parsed::Abort
    } else if done(toks, st.pos) {
        Parsed::Done(
            warn(
                st,
                "Unclosed "@ + end + " tag (opened at token "@ + decimal(start as nat) + ")"@,
                start,
            ),
            (main, other),
        )
    } else if is_end(toks[st.pos], end) {
        Parsed::Done(adv(toks, st), (main, other))
    } else if is_start(toks[st.pos], alt) && !in_other {
        two_loop(toks, adv(toks, st), end, alt, start, iter + 1, main, Some(seq![]), true)
    } else {
        match p_node(toks, st) {
            Parsed::Done(s, o) => {
                let main2 = match o {
                    Some(n) => if in_other {
                        main
                    } else {
                        main.push(n)
                    },
                    None => main,
                };
                let other2 = match o {
                    Some(n) => if in_other {
                        match other {
                            Some(b) => Some(b.push(n)),
                            None => other,
                        }
                    } else {
                        other
                    },
                    None => other,
                };
                let s2 = unstuck(toks, s, st.pos);
                if moved(toks, st.pos, s2.pos) {
                    two_loop(toks, s2, end, alt, start, iter + 1, main2, other2, in_other)
                } else {
                    Parsed::Done(s2, (main2, other2))
                }
            },
            Parsed::Fail(s) => Parsed::Fail(s),
            Parsed::Abort => Parsed::Abort,
        }
    }
}

pub open spec fn p_for(toks: Seq<TokenModel>, st: PState, content: Seq<char>, raw: Seq<char>) -> Parsed<
    Option<NodeModel>,
>
    decreases toks.len() - st.pos, 2nat,
{
    if depth_exceeded(st) {
        Parsed::Fail(deeper(st))
    } else {
        let (variable, iterable) = for_parts(content);
        let st1 = if variable.len() == 0 || iterable.len() == 0 {
            warn(deeper(st), "Malformed for tag: '"@ + content + "'"@, st.pos - 1)
        } else {
            deeper(st)
        };
        match two_loop(toks, st1, "for"@, "empty"@, st.pos, 0, seq![], None, false) {
            Parsed::Done(s, (body, empty)) => Parsed::Done(
                shallower(s),
                Some(NodeModel::For { raw, variable, iterable, body, empty_branch: empty }),
            ),
            Parsed::Fail(s) => Parsed::Fail(s),
            Parsed::Abort => Parsed::Abort,
        }
    }
}

pub open spec fn p_ifchanged(
    toks: Seq<TokenModel>,
    st: PState,
    content: Seq<char>,
    raw: Seq<char>,
) -> Parsed<Option<NodeModel>>
    decreases toks.len() - st.pos, 2nat,
{
    if depth_exceeded(st) {
        Parsed::Fail(deeper(st))
    } else {
        let condition = after(content, "ifchanged"@);
        match two_loop(toks, deeper(st), "ifchanged"@, "else"@, st.pos, 0, seq![], None, false) {
            Parsed::Done(s, (main, other)) => Parsed::Done(
                shallower(s),
                Some(
                    NodeModel::Ifchanged {
                        raw,
                        condition: if condition.len() == 0 {
                            None
                        } else {
                            Some(condition)
                        },
                        true_branch: main,
                        else_branch: other,
                    },
                ),
            ),
            Parsed::Fail(s) => Parsed::Fail(s),
            Parsed::Abort => Parsed::Abort,
        }
    }
}

pub open spec fn p_comment(toks: Seq<TokenModel>, st: PState, raw: Seq<char>) -> Parsed<
    Option<NodeModel>,
>
    decreases toks.len() - st.pos, 2nat,
{
    if depth_exceeded(st) {
        Parsed::Fail(deeper(st))
    } else {
        match comment_loop(toks, deeper(st), seq![]) {
            Parsed::Done(s, text) => Parsed::Done(
                shallower(s),
                Some(NodeModel::CommentBlock { raw, content: text }),
            ),
            Parsed::Fail(s) => Parsed::Fail(s),
            Parsed::Abort => Parsed::Abort,
        }
    }
}

/// The texts of the text nodes up to `{% endcomment %}`, concatenated.
pub open spec fn comment_loop(toks: Seq<TokenModel>, st: PState, text: Seq<char>) -> Parsed<
    Seq<char>,
>
    decreases toks.len() - st.pos, 1nat,
{
    if done(toks, st.pos) {
        Parsed::Done(st, text)
    } else if is_end(toks[st.pos], "comment"@) {
        Parsed::Done(adv(toks, st), text)
    } else {
        match p_node(toks, st) {
            Parsed::Done(s, o) => {
                let text2 = match o {
                    Some(NodeModel::Text { content }) => text + content,
                    _ => text,
                };
                if moved(toks, st.pos, s.pos) {
                    comment_loop(toks, s, text2)
                } else {
                    Parsed::Done(s, text2)
                }
            },
            Parsed::Fail(s) => Parsed::Fail(s),
            Parsed::Abort => Parsed::Abort,
        }
    }
}

/// The top level: nodes until the end of the stream.
pub open spec fn top_loop(toks: Seq<TokenModel>, st: PState, iter: nat, nodes: Seq<NodeModel>) -> Parsed<
    Seq<NodeModel>,
>
    decreases toks.len() - st.pos,
{
    if done(toks, st.pos) {
        Parsed::Done(st, nodes)
    } else if iter + 1 > PARSE_ITERATIONS_MAX {
        Parsed::Abort
    } else {
        match p_node(toks, st) {
            Parsed::Done(s, o) => {
                let nodes2 = match o {
                    Some(n) => nodes.push(n),
                    None => nodes,
                };
                if moved(toks, st.pos, s.pos) {
                    top_loop(toks, s, iter + 1, nodes2)
                } else {
                    Parsed::Done(s, nodes2)
                }
            },
            Parsed::Fail(s) => Parsed::Fail(s),
            Parsed::Abort => Parsed::Abort,
        }
    }
}

pub open spec fn initial_state() -> PState {
    PState { pos: 0, depth: 0, diags: seq![] }
}

/// The parse of a whole token stream.
pub open spec fn parse_tokens(toks: Seq<TokenModel>) -> Parsed<Seq<NodeModel>> {
    top_loop(toks, initial_state(), 0, seq![])
}

/// The message of the nesting error.
pub open spec fn depth_message() -> Seq<char> {
    "Template nesting depth exceeds maximum of 128"@
}

} // verus!
