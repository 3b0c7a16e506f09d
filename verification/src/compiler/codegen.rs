//! Code generation: turns a (resolved) syntax tree back into template text,
//! then collapses runs of blank lines.
use vstd::prelude::*;
use crate::compiler::ast::{
    node_children, node_view, nodes_view, AstNode, ElifModel, ForNode, IfNode, IfchangedNode,
    NodeModel,
};
use crate::text::{chars_of, utf8_len, utf8_len_exceeds};

verus! {

pub const WORK_ITERATIONS_MAX: u32 = 10_000_000;

pub const COLLAPSE_LENGTH_MAX: u32 = 50_000_000;

/// The text of a node sequence: the texts of the nodes, in order.
pub open spec fn render_nodes(ns: Seq<NodeModel>) -> Seq<char>
    decreases ns, 0nat,
{
    if ns.len() == 0 {
        seq![]
    } else {
        render_nodes(ns.drop_last()) + render_node(ns.last())
    }
}

pub open spec fn render_elifs(es: Seq<ElifModel>) -> Seq<char>
    decreases es, 0nat,
{
    if es.len() == 0 {
        seq![]
    } else {
        render_elifs(es.drop_last()) + "{% elif "@ + es.last().condition + " %}"@ + render_nodes(
            es.last().body,
        )
    }
}

pub open spec fn render_else(tag: Seq<char>, o: Option<Seq<NodeModel>>) -> Seq<char>
    decreases o, 0nat,
{
    match o {
        Some(ns) => tag + render_nodes(ns),
        None => seq![],
    }
}

/// The text of one node.  Blocks render as their content; the structured
/// tags render as their opening tag, their branches and a canonical end tag;
/// every other tag renders as the text it was written with.
pub open spec fn render_node(n: NodeModel) -> Seq<char>
    decreases n, 1nat,
{
    match n {
        NodeModel::Text { content } => content,
        NodeModel::Variable { raw, .. } => raw,
        NodeModel::Block { content, .. } => render_nodes(content),
        NodeModel::If { raw, true_branch, elif_branches, else_branch, .. } => raw + render_nodes(
            true_branch,
        ) + render_elifs(elif_branches) + render_else("{% else %}"@, else_branch)
            + "{% endif %}"@,
        NodeModel::For { raw, body, empty_branch, .. } => raw + render_nodes(body) + render_else(
            "{% empty %}"@,
            empty_branch,
        ) + "{% endfor %}"@,
        NodeModel::Ifchanged { raw, true_branch, else_branch, .. } => raw + render_nodes(
            true_branch,
        ) + render_else("{% else %}"@, else_branch) + "{% endifchanged %}"@,
        NodeModel::CommentBlock { raw, content } => raw + content + "{% endcomment %}"@,
        NodeModel::Verbatim { raw, content } => raw + content + "{% endverbatim %}"@,
        NodeModel::Blocktranslate { raw, body, .. } => raw + render_nodes(body)
            + "{% endblocktranslate %}"@,
        NodeModel::With { raw, body, .. } => raw + render_nodes(body) + "{% endwith %}"@,
        NodeModel::Autoescape { raw, body, .. } => raw + render_nodes(body)
            + "{% endautoescape %}"@,
        NodeModel::Language { raw, body, .. } => raw + render_nodes(body) + "{% endlanguage %}"@,
        NodeModel::FilterBlock { raw, body, .. } => raw + render_nodes(body)
            + "{% endfilter %}"@,
        NodeModel::Cache { raw, body, .. } => raw + render_nodes(body) + "{% endcache %}"@,
        NodeModel::Localize { raw, body, .. } => raw + render_nodes(body) + "{% endlocalize %}"@,
        NodeModel::Localtime { raw, body, .. } => raw + render_nodes(body)
            + "{% endlocaltime %}"@,
        NodeModel::Spaceless { raw, body } => raw + render_nodes(body) + "{% endspaceless %}"@,
        NodeModel::Timezone { raw, body, .. } => raw + render_nodes(body) + "{% endtimezone %}"@,
        NodeModel::Utc { raw, body } => raw + render_nodes(body) + "{% endutc %}"@,
        NodeModel::Extends { raw, .. } => raw,
        NodeModel::Include { raw, .. } => raw,
        NodeModel::Load { raw, .. } => raw,
        NodeModel::Static { raw, .. } => raw,
        NodeModel::Csrftoken { raw } => raw,
        NodeModel::Trans { raw, .. } => raw,
        NodeModel::TemplateTag { raw, .. } => raw,
        NodeModel::Now { raw, .. } => raw,
        NodeModel::Regroup { raw, .. } => raw,
        NodeModel::Cycle { raw, .. } => raw,
        NodeModel::Firstof { raw, .. } => raw,
        NodeModel::Widthratio { raw, .. } => raw,
        NodeModel::JsonScript { raw, .. } => raw,
        NodeModel::CaptureAs { raw, .. } => raw,
        NodeModel::Debug { raw } => raw,
        NodeModel::GetStaticPrefix { raw, .. } => raw,
        NodeModel::GetMediaPrefix { raw, .. } => raw,
        NodeModel::Resetcycle { raw, .. } => raw,
        NodeModel::Lorem { raw, .. } => raw,
        NodeModel::Querystring { raw, .. } => raw,
        NodeModel::Translate { raw, .. } => raw,
        NodeModel::Plural { raw, .. } => raw,
    }
}

/// The texts `tags` and `parts` taken in turn: `tags[0] + parts[0] +
/// tags[1] + parts[1] + ...`.
pub open spec fn weave(tags: Seq<Seq<char>>, parts: Seq<Seq<char>>) -> Seq<char>
    decreases parts.len(),
{
    if parts.len() == 0 || tags.len() == 0 {
        seq![]
    } else {
        weave(tags.drop_last(), parts.drop_last()) + tags.last() + parts.last()
    }
}

/// The tag that opens an optional branch, when the branch is there.
pub open spec fn branch_tag(tag: Seq<char>, o: Option<Seq<NodeModel>>) -> Seq<Seq<char>> {
    match o {
        Some(_) => seq![tag],
        None => seq![],
    }
}

/// The `elif` tags of an if node, in order.
pub open spec fn elif_tags(es: Seq<ElifModel>) -> Seq<Seq<char>> {
    es.map_values(|e: ElifModel| "{% elif "@ + e.condition + " %}"@)
}

/// The pieces of a node's text around its child lists: its opening tag,
/// the tag in front of each further branch, and its end tag.  A block has
/// no tags of its own; a node without children is one piece.
pub open spec fn node_tags(n: NodeModel) -> Seq<Seq<char>> {
    match n {
        NodeModel::Text { content } => seq![content],
        NodeModel::Block { .. } => seq![seq![], seq![]],
        NodeModel::If { raw, elif_branches, else_branch, .. } => seq![raw] + elif_tags(elif_branches)
            + branch_tag("{% else %}"@, else_branch) + seq!["{% endif %}"@],
        NodeModel::For { raw, empty_branch, .. } => seq![raw] + branch_tag("{% empty %}"@, empty_branch)
            + seq!["{% endfor %}"@],
        NodeModel::Ifchanged { raw, else_branch, .. } => seq![raw] + branch_tag("{% else %}"@, else_branch)
            + seq!["{% endifchanged %}"@],
        NodeModel::CommentBlock { raw, content } => seq![raw + content + "{% endcomment %}"@],
        NodeModel::Verbatim { raw, content } => seq![raw + content + "{% endverbatim %}"@],
        NodeModel::Blocktranslate { raw, .. } => seq![raw, "{% endblocktranslate %}"@],
        NodeModel::With { raw, .. } => seq![raw, "{% endwith %}"@],
        NodeModel::Autoescape { raw, .. } => seq![raw, "{% endautoescape %}"@],
        NodeModel::Language { raw, .. } => seq![raw, "{% endlanguage %}"@],
        NodeModel::FilterBlock { raw, .. } => seq![raw, "{% endfilter %}"@],
        NodeModel::Cache { raw, .. } => seq![raw, "{% endcache %}"@],
        NodeModel::Localize { raw, .. } => seq![raw, "{% endlocalize %}"@],
        NodeModel::Localtime { raw, .. } => seq![raw, "{% endlocaltime %}"@],
        NodeModel::Spaceless { raw, .. } => seq![raw, "{% endspaceless %}"@],
        NodeModel::Timezone { raw, .. } => seq![raw, "{% endtimezone %}"@],
        NodeModel::Utc { raw, .. } => seq![raw, "{% endutc %}"@],
        NodeModel::Variable { raw, .. } => seq![raw],
        NodeModel::Extends { raw, .. } => seq![raw],
        NodeModel::Include { raw, .. } => seq![raw],
        NodeModel::Load { raw, .. } => seq![raw],
        NodeModel::Static { raw, .. } => seq![raw],
        NodeModel::Csrftoken { raw } => seq![raw],
        NodeModel::Trans { raw, .. } => seq![raw],
        NodeModel::TemplateTag { raw, .. } => seq![raw],
        NodeModel::Now { raw, .. } => seq![raw],
        NodeModel::Regroup { raw, .. } => seq![raw],
        NodeModel::Cycle { raw, .. } => seq![raw],
        NodeModel::Firstof { raw, .. } => seq![raw],
        NodeModel::Widthratio { raw, .. } => seq![raw],
        NodeModel::JsonScript { raw, .. } => seq![raw],
        NodeModel::CaptureAs { raw, .. } => seq![raw],
        NodeModel::Debug { raw } => seq![raw],
        NodeModel::GetStaticPrefix { raw, .. } => seq![raw],
        NodeModel::GetMediaPrefix { raw, .. } => seq![raw],
        NodeModel::Resetcycle { raw, .. } => seq![raw],
        NodeModel::Lorem { raw, .. } => seq![raw],
        NodeModel::Querystring { raw, .. } => seq![raw],
        NodeModel::Translate { raw, .. } => seq![raw],
        NodeModel::Plural { raw, .. } => seq![raw],
    }
}

/// The texts of a node's child lists, in order.
pub open spec fn child_texts(n: NodeModel) -> Seq<Seq<char>> {
    node_children(n).map_values(|c: Seq<NodeModel>| render_nodes(c))
}

/// The texts of the bodies of elif branches, in order.
pub open spec fn elif_texts(es: Seq<ElifModel>) -> Seq<Seq<char>> {
    es.map_values(|e: ElifModel| render_nodes(e.body))
}

/// The first tag and text woven with the elif tags and bodies are the text
/// `render_elifs` gives them after the first two.
proof fn lemma_weave_elifs(raw: Seq<char>, t: Seq<char>, es: Seq<ElifModel>)
    ensures
        weave(seq![raw] + elif_tags(es), seq![t] + elif_texts(es)) == raw + t + render_elifs(es),
    decreases es.len(),
{
    let tags = seq![raw] + elif_tags(es);
    let parts = seq![t] + elif_texts(es);
    if es.len() == 0 {
        assert(tags =~= seq![raw]);
        assert(parts =~= seq![t]);
        assert(tags.drop_last() =~= Seq::<Seq<char>>::empty());
        assert(parts.drop_last() =~= Seq::<Seq<char>>::empty());
        assert(weave(tags.drop_last(), parts.drop_last()) == Seq::<char>::empty());
        assert(weave(tags, parts) =~= raw + t + render_elifs(es));
    } else {
        let es2 = es.drop_last();
        lemma_weave_elifs(raw, t, es2);
        assert(tags.drop_last() =~= seq![raw] + elif_tags(es2));
        assert(parts.drop_last() =~= seq![t] + elif_texts(es2));
        assert(tags.last() == "{% elif "@ + es.last().condition + " %}"@);
        assert(parts.last() == render_nodes(es.last().body));
        assert(weave(tags, parts) =~= raw + t + render_elifs(es));
    }
}

/// Weaving no, one or two tags with as many texts.
proof fn lemma_weave_one_or_two(tags: Seq<Seq<char>>, parts: Seq<Seq<char>>)
    requires
        tags.len() == parts.len(),
        parts.len() <= 2,
    ensures
        parts.len() == 0 ==> weave(tags, parts) == Seq::<char>::empty(),
        parts.len() == 1 ==> weave(tags, parts) == tags[0] + parts[0],
        parts.len() == 2 ==> weave(tags, parts) == tags[0] + parts[0] + tags[1] + parts[1],
{
    if parts.len() >= 1 {
        let t1 = tags.drop_last();
        let p1 = parts.drop_last();
        if parts.len() == 2 {
            assert(t1.drop_last().len() == 0);
            assert(weave(t1.drop_last(), p1.drop_last()) == Seq::<char>::empty());
            assert(weave(t1, p1) =~= tags[0] + parts[0]);
            assert(weave(tags, parts) =~= tags[0] + parts[0] + tags[1] + parts[1]);
        } else {
            assert(weave(t1, p1) == Seq::<char>::empty());
            assert(weave(tags, parts) =~= tags[0] + parts[0]);
        }
    }
}

/// Law: the text of a node sequence is the texts of its nodes in order:
/// one node gives its own text, and two runs give the first run's text
/// followed by the second's.
pub proof fn law_render_nodes_concatenates(a: Seq<NodeModel>, b: Seq<NodeModel>, n: NodeModel)
    ensures
        render_nodes(seq![n]) == render_node(n),
        render_nodes(a + b) == render_nodes(a) + render_nodes(b),
    decreases b.len(),
{
    assert(seq![n].drop_last() =~= Seq::<NodeModel>::empty());
    assert(render_nodes(Seq::<NodeModel>::empty()) == Seq::<char>::empty());
    assert(seq![n].last() == n);
    assert(render_nodes(seq![n]) == render_nodes(seq![n].drop_last()) + render_node(n));
    assert(render_nodes(seq![n]) =~= render_node(n));
    if b.len() == 0 {
        assert(a + b =~= a);
        assert(render_nodes(a) + render_nodes(b) =~= render_nodes(a));
    } else {
        law_render_nodes_concatenates(a, b.drop_last(), n);
        assert((a + b).drop_last() =~= a + b.drop_last());
        assert(render_nodes(a + b) =~= render_nodes(a) + render_nodes(b));
    }
}

/// Law: generation loses no branch.  The text of a node is its tags (its
/// opening tag, the tag in front of each further branch, its end tag) taken
/// in turn with the texts of all its child lists, in order: an if node's
/// true branch, each elif body and its else branch; a for node's body and
/// empty branch; an ifchanged node's true branch and else branch; the body
/// of every other tag that has one.
pub proof fn law_render_keeps_branches(n: NodeModel)
    ensures
        node_tags(n).len() == child_texts(n).len() + 1,
        render_node(n) == weave(node_tags(n).drop_last(), child_texts(n)) + node_tags(n).last(),
{
    let tags = node_tags(n);
    let parts = child_texts(n);
    match n {
        NodeModel::If { raw, true_branch, elif_branches, else_branch, .. } => {
            let es = elif_branches;
            let rt = render_nodes(true_branch);
            lemma_weave_elifs(raw, rt, es);
            assert(elif_branches.map_values(|e: ElifModel| e.body).map_values(
                |c: Seq<NodeModel>| render_nodes(c),
            ) =~= elif_texts(es));
            match else_branch {
                Some(b) => {
                    assert(parts =~= seq![rt] + elif_texts(es) + seq![render_nodes(b)]);
                    assert(tags.drop_last().drop_last() =~= seq![raw] + elif_tags(es));
                    assert(parts.drop_last() =~= seq![rt] + elif_texts(es));
                    assert(render_node(n) =~= weave(tags.drop_last(), parts) + tags.last());
                },
                None => {
                    assert(parts =~= seq![rt] + elif_texts(es));
                    assert(tags.drop_last() =~= seq![raw] + elif_tags(es));
                    assert(render_node(n) =~= weave(tags.drop_last(), parts) + tags.last());
                },
            }
        },
        _ => {
            lemma_weave_one_or_two(tags.drop_last(), parts);
            assert(render_node(n) =~= weave(tags.drop_last(), parts) + tags.last());
        },
    }
}

/// How many work items the generator handles for a node sequence: one per
/// node and one per piece of text it emits.
pub open spec fn work_nodes(ns: Seq<NodeModel>) -> nat
    decreases ns, 0nat,
{
    if ns.len() == 0 {
        0
    } else {
        work_nodes(ns.drop_last()) + work_node(ns.last())
    }
}

pub open spec fn work_elifs(es: Seq<ElifModel>) -> nat
    decreases es, 0nat,
{
    if es.len() == 0 {
        0
    } else {
        work_elifs(es.drop_last()) + 3 + work_nodes(es.last().body)
    }
}

pub open spec fn work_else(o: Option<Seq<NodeModel>>) -> nat
    decreases o, 0nat,
{
    match o {
        Some(ns) => 1 + work_nodes(ns),
        None => 0,
    }
}

pub open spec fn work_node(n: NodeModel) -> nat
    decreases n, 1nat,
{
    match n {
        NodeModel::Block { content, .. } => 1 + work_nodes(content),
        NodeModel::If { true_branch, elif_branches, else_branch, .. } => 3 + work_nodes(
            true_branch,
        ) + work_elifs(elif_branches) + work_else(else_branch),
        NodeModel::For { body, empty_branch, .. } => 3 + work_nodes(body) + work_else(
            empty_branch,
        ),
        NodeModel::Ifchanged { true_branch, else_branch, .. } => 3 + work_nodes(true_branch)
            + work_else(else_branch),
        NodeModel::CommentBlock { .. } => 4,
        NodeModel::Verbatim { .. } => 4,
        NodeModel::Blocktranslate { body, .. } => 3 + work_nodes(body),
        NodeModel::With { body, .. } => 3 + work_nodes(body),
        NodeModel::Autoescape { body, .. } => 3 + work_nodes(body),
        NodeModel::Language { body, .. } => 3 + work_nodes(body),
        NodeModel::FilterBlock { body, .. } => 3 + work_nodes(body),
        NodeModel::Cache { body, .. } => 3 + work_nodes(body),
        NodeModel::Localize { body, .. } => 3 + work_nodes(body),
        NodeModel::Localtime { body, .. } => 3 + work_nodes(body),
        NodeModel::Spaceless { body, .. } => 3 + work_nodes(body),
        NodeModel::Timezone { body, .. } => 3 + work_nodes(body),
        NodeModel::Utc { body, .. } => 3 + work_nodes(body),
        _ => 2,
    }
}

// ---------------------------------------------------------------------------
// Collapsing blank lines
// ---------------------------------------------------------------------------
pub open spec fn is_blank_char(c: char) -> bool {
    c == ' ' || c == '\t' || c == '\r'
}

/// A line made only of spaces, tabs and carriage returns.
pub open spec fn is_blank(line: Seq<char>) -> bool {
    forall|i: int| 0 <= i < line.len() ==> is_blank_char(#[trigger] line[i])
}

/// Index of the first `\n` at or after `pos`, or the end of `s`.
pub open spec fn line_end(s: Seq<char>, pos: int) -> int
    decreases s.len() - pos,
{
    if pos < 0 || pos >= s.len() {
        s.len() as int
    } else if s[pos] == '\n' {
        pos
    } else {
        line_end(s, pos + 1)
    }
}

/// The lines of `s` from `pos` on, joined with single `\n`s, each run of
/// blank lines written as one `\n` (none before the first non-blank line).
pub open spec fn collapse_from(
    s: Seq<char>,
    pos: int,
    was_blank: bool,
    first: bool,
    acc: Seq<char>,
) -> Seq<char>
    decreases s.len() + 1 - pos,
{
    if pos < 0 || pos > s.len() {
        acc
    } else {
        let end = line_end(s, pos);
        let line = s.subrange(pos, end);
        if end < pos || end > s.len() {
            acc
        } else if is_blank(line) {
            collapse_from(
                s,
                end + 1,
                true,
                first,
                if !was_blank && !first {
                    acc.push('\n')
                } else {
                    acc
                },
            )
        } else {
            collapse_from(
                s,
                end + 1,
                false,
                false,
                (if !first {
                    acc.push('\n')
                } else {
                    acc
                }) + line,
            )
        }
    }
}

/// `collapse` of the generator: blank-line runs collapsed, a trailing `\n`
/// of the input kept.
pub open spec fn collapse_spec(s: Seq<char>) -> Seq<char> {
    let joined = collapse_from(s, 0, false, true, seq![]);
    let trimmed = if joined.len() > 0 && joined.last() == '\n' {
        joined.drop_last()
    } else {
        joined
    };
    if s.len() > 0 && s.last() == '\n' {
        trimmed.push('\n')
    } else {
        trimmed
    }
}

/// The text the generator produces for a syntax tree.
pub open spec fn generate_spec(ns: Seq<NodeModel>) -> Seq<char> {
    collapse_spec(render_nodes(ns))
}

fn append_lit(out: &mut Vec<char>, lit: &str)
    ensures
        final(out)@ == old(out)@ + lit@,
{
    let cs = chars_of(lit);
    let mut i: usize = 0;
    while i < cs.len()
        invariant
            i <= cs.len(),
            cs@ == lit@,
            out@ == old(out)@ + cs@.take(i as int),
        decreases cs.len() - i,
    {
        out.push(cs[i]);
        i += 1;
        assert(out@ =~= old(out)@ + cs@.take(i as int));
    }
    assert(cs@.take(cs.len() as int) =~= cs@);
}

fn append_string(out: &mut Vec<char>, s: &String)
    ensures
        final(out)@ == old(out)@ + s@,
{
    append_lit(out, s.as_str());
}

fn blank(line: &Vec<char>, lo: usize, hi: usize) -> (r: bool)
    requires
        lo <= hi <= line.len(),
    ensures
        r == is_blank(line@.subrange(lo as int, hi as int)),
{
    let mut i = lo;
    while i < hi
        invariant
            lo <= i <= hi <= line.len(),
            forall|k: int| lo <= k < i ==> is_blank_char(#[trigger] line@[k]),
        decreases hi - i,
    {
        let c = line[i];
        if !(c == ' ' || c == '\t' || c == '\r') {
            assert(!is_blank_char(line@.subrange(lo as int, hi as int)[i - lo]));
            return false;
        }
        i += 1;
    }
    assert forall|k: int| 0 <= k < hi - lo implies is_blank_char(
        #[trigger] line@.subrange(lo as int, hi as int)[k],
    ) by {
        assert(line@.subrange(lo as int, hi as int)[k] == line@[lo + k]);
    }
    true
}

fn string_from_chars(v: &Vec<char>) -> (r: String)
    ensures
        r@ == v@,
{
    crate::text::string_of_all(v)
}

/// Collapses runs of blank lines of `input`.
fn collapse(input: &Vec<char>) -> (r: String)
    requires
        utf8_len(input@) <= COLLAPSE_LENGTH_MAX,
    ensures
        r@ == collapse_spec(input@),
{
    let ghost s = input@;
    let length = input.len();
    proof {
        crate::text::lemma_utf8_len_ge_len(s);
    }
    let mut result: Vec<char> = Vec::new();
    let mut was_blank = false;
    let mut first = true;
    let mut position: usize = 0;
    while position <= length
        invariant
            s == input@,
            length == s.len(),
            length <= COLLAPSE_LENGTH_MAX,
            position <= length + 1,
            collapse_from(s, 0, false, true, seq![]) == collapse_from(
                s,
                position as int,
                was_blank,
                first,
                result@,
            ),
        decreases length + 1 - position,
    {
        let start = position;
        while position < length && input[position] != '\n'
            invariant
                s == input@,
                length == s.len(),
                start <= position <= length,
                line_end(s, start as int) == line_end(s, position as int),
            decreases length - position,
        {
            position += 1;
        }
        assert(line_end(s, position as int) == position as int);
        if blank(input, start, position) {
            if !was_blank && !first {
                result.push('\n');
            }
            was_blank = true;
        } else {
            was_blank = false;
            if !first {
                result.push('\n');
            }
            first = false;
            let mut k = start;
            let ghost base = result@;
            while k < position
                invariant
                    start <= k <= position <= length,
                    s == input@,
                    length == s.len(),
                    result@ == base + s.subrange(start as int, k as int),
                decreases position - k,
            {
                result.push(input[k]);
                k += 1;
                assert(result@ =~= base + s.subrange(start as int, k as int));
            }
        }
        position += 1;
    }
    assert(collapse_from(s, position as int, was_blank, first, result@) == result@);
    let ghost joined = result@;
    if result.len() > 0 && result[result.len() - 1] == '\n' {
        result.pop();
        assert(result@ =~= joined.drop_last());
    }
    if length > 0 && input[length - 1] == '\n' {
        result.push('\n');
    }
    string_from_chars(&result)
}

/// Appends the text of `nodes`.
fn spread(nodes: &[AstNode], out: &mut Vec<char>)
    ensures
        final(out)@ == old(out)@ + render_nodes(nodes_view(nodes@)),
    decreases nodes@, 0nat,
{
    let mut i: usize = 0;
    assert(nodes_view(nodes@.take(0)) =~= Seq::<NodeModel>::empty());
    assert(old(out)@ + render_nodes(Seq::<NodeModel>::empty()) =~= old(out)@);
    while i < nodes.len()
        invariant
            i <= nodes.len(),
            out@ == old(out)@ + render_nodes(nodes_view(nodes@.take(i as int))),
        decreases nodes.len() - i,
    {
        let ghost before = out@;
        enqueue(&nodes[i], out);
        proof {
            assert(nodes@.take(i + 1).drop_last() =~= nodes@.take(i as int));
            assert(nodes@.take(i + 1).last() == nodes@[i as int]);
            assert(nodes_view(nodes@.take(i + 1)) == nodes_view(nodes@.take(i as int)).push(
                node_view(nodes@[i as int]),
            ));
            let ns = nodes_view(nodes@.take(i + 1));
            assert(ns.drop_last() =~= nodes_view(nodes@.take(i as int)));
            assert(out@ =~= old(out)@ + render_nodes(nodes_view(nodes@.take(i + 1))));
        }
        i += 1;
    }
    assert(nodes@.take(nodes.len() as int) =~= nodes@);
}

/// Appends `raw`, the text of `body` and the end tag.
fn enqueue_body(raw: &String, body: &Vec<AstNode>, end_tag: &str, out: &mut Vec<char>)
    ensures
        final(out)@ == old(out)@ + raw@ + render_nodes(nodes_view(body@)) + end_tag@,
    decreases body@, 1nat,
{
    append_string(out, raw);
    spread(body.as_slice(), out);
    append_lit(out, end_tag);
}

/// Appends `raw`, `content` and the end tag.
fn enqueue_bookend(raw: &String, content: &String, end_tag: &str, out: &mut Vec<char>)
    ensures
        final(out)@ == old(out)@ + raw@ + content@ + end_tag@,
{
    append_string(out, raw);
    append_string(out, content);
    append_lit(out, end_tag);
}

fn enqueue_else(tag: &str, branch: &Option<Vec<AstNode>>, out: &mut Vec<char>)
    ensures
        final(out)@ == old(out)@ + render_else(
            tag@,
            crate::compiler::ast::opt_nodes_view(*branch),
        ),
    decreases *branch, 1nat,
{
    match branch {
        Some(b) => {
            append_lit(out, tag);
            spread(b.as_slice(), out);
        },
        None => {
            assert(old(out)@ + Seq::<char>::empty() =~= old(out)@);
        },
    }
}

fn enqueue_if(node: &IfNode, out: &mut Vec<char>)
    ensures
        final(out)@ == old(out)@ + node.raw@ + render_nodes(nodes_view(node.true_branch@))
            + render_elifs(crate::compiler::ast::elifs_view(node.elif_branches@)) + render_else(
            "{% else %}"@,
            crate::compiler::ast::opt_nodes_view(node.else_branch),
        ) + "{% endif %}"@,
    decreases *node, 0nat,
{
    append_string(out, &node.raw);
    spread(node.true_branch.as_slice(), out);
    let ghost base = out@;
    let mut k: usize = 0;
    let ghost es = node.elif_branches@;
    assert(crate::compiler::ast::elifs_view(es.take(0)) =~= Seq::<ElifModel>::empty());
    assert(base + render_elifs(Seq::<ElifModel>::empty()) =~= base);
    while k < node.elif_branches.len()
        invariant
            k <= es.len(),
            es == node.elif_branches@,
            out@ == base + render_elifs(crate::compiler::ast::elifs_view(es.take(k as int))),
        decreases es.len() - k,
    {
        let elif = &node.elif_branches[k];
        append_lit(out, "{% elif ");
        append_string(out, &elif.condition);
        append_lit(out, " %}");
        spread(elif.body.as_slice(), out);
        proof {
            assert(es.take(k + 1).drop_last() =~= es.take(k as int));
            let ev = crate::compiler::ast::elifs_view(es.take(k + 1));
            assert(ev.drop_last() =~= crate::compiler::ast::elifs_view(es.take(k as int)));
            assert(out@ =~= base + render_elifs(ev));
        }
        k += 1;
    }
    assert(es.take(es.len() as int) =~= es);
    enqueue_else("{% else %}", &node.else_branch, out);
    append_lit(out, "{% endif %}");
}

fn enqueue_for(node: &ForNode, out: &mut Vec<char>)
    ensures
        final(out)@ == old(out)@ + node.raw@ + render_nodes(nodes_view(node.body@)) + render_else(
            "{% empty %}"@,
            crate::compiler::ast::opt_nodes_view(node.empty_branch),
        ) + "{% endfor %}"@,
    decreases *node, 0nat,
{
    append_string(out, &node.raw);
    spread(node.body.as_slice(), out);
    enqueue_else("{% empty %}", &node.empty_branch, out);
    append_lit(out, "{% endfor %}");
}

fn enqueue_ifchanged(node: &IfchangedNode, out: &mut Vec<char>)
    ensures
        final(out)@ == old(out)@ + node.raw@ + render_nodes(nodes_view(node.true_branch@))
            + render_else("{% else %}"@, crate::compiler::ast::opt_nodes_view(node.else_branch))
            + "{% endifchanged %}"@,
    decreases *node, 0nat,
{
    append_string(out, &node.raw);
    spread(node.true_branch.as_slice(), out);
    enqueue_else("{% else %}", &node.else_branch, out);
    append_lit(out, "{% endifchanged %}");
}

/// The text a node that renders as itself was written with.
fn enqueue_raw(node: &AstNode) -> (r: &String)
    ensures
        (render_is_raw(node_view(*node)) ==> r@ == render_node(node_view(*node))),
{
    match node {
        AstNode::Extends(x) => &x.raw,
        AstNode::Include(x) => &x.raw,
        AstNode::Load(x) => &x.raw,
        AstNode::Static(x) => &x.raw,
        AstNode::Csrftoken(x) => &x.raw,
        AstNode::Trans(x) => &x.raw,
        AstNode::TemplateTag(x) => &x.raw,
        AstNode::Now(x) => &x.raw,
        AstNode::Cycle(x) => &x.raw,
        AstNode::Firstof(x) => &x.raw,
        AstNode::Widthratio(x) => &x.raw,
        AstNode::JsonScript(x) => &x.raw,
        AstNode::CaptureAs(x) => &x.raw,
        AstNode::Debug(x) => &x.raw,
        AstNode::GetStaticPrefix(x) => &x.raw,
        AstNode::GetMediaPrefix(x) => &x.raw,
        AstNode::Resetcycle(x) => &x.raw,
        AstNode::Lorem(x) => &x.raw,
        AstNode::Querystring(x) => &x.raw,
        AstNode::Translate(x) => &x.raw,
        AstNode::Plural(x) => &x.raw,
        AstNode::Regroup(x) => &x.raw,
        AstNode::Text(x) => &x.content,
        AstNode::Variable(x) => &x.raw,
        AstNode::Block(x) => &x.raw,
        AstNode::If(x) => &x.raw,
        AstNode::For(x) => &x.raw,
        AstNode::With(x) => &x.raw,
        AstNode::CommentBlock(x) => &x.raw,
        AstNode::Autoescape(x) => &x.raw,
        AstNode::Blocktranslate(x) => &x.raw,
        AstNode::Language(x) => &x.raw,
        AstNode::Verbatim(x) => &x.raw,
        AstNode::Ifchanged(x) => &x.raw,
        AstNode::FilterBlock(x) => &x.raw,
        AstNode::Cache(x) => &x.raw,
        AstNode::Localize(x) => &x.raw,
        AstNode::Localtime(x) => &x.raw,
        AstNode::Spaceless(x) => &x.raw,
        AstNode::Timezone(x) => &x.raw,
        AstNode::Utc(x) => &x.raw,
    }
}

/// The nodes whose text is the text they were written with.
pub open spec fn render_is_raw(n: NodeModel) -> bool {
    match n {
        NodeModel::Extends { .. } | NodeModel::Include { .. } | NodeModel::Load { .. }
        | NodeModel::Static { .. } | NodeModel::Csrftoken { .. } | NodeModel::Trans { .. }
        | NodeModel::TemplateTag { .. } | NodeModel::Now { .. } | NodeModel::Cycle { .. }
        | NodeModel::Firstof { .. } | NodeModel::Widthratio { .. } | NodeModel::JsonScript {
            ..
        } | NodeModel::CaptureAs { .. } | NodeModel::Debug { .. } | NodeModel::GetStaticPrefix {
            ..
        } | NodeModel::GetMediaPrefix { .. } | NodeModel::Resetcycle { .. } | NodeModel::Lorem {
            ..
        } | NodeModel::Querystring { .. } | NodeModel::Translate { .. } | NodeModel::Plural {
            ..
        } | NodeModel::Regroup { .. } | NodeModel::Variable { .. } => true,
        _ => false,
    }
}

/// Appends the text of one node.
fn enqueue(node: &AstNode, out: &mut Vec<char>)
    ensures
        final(out)@ == old(out)@ + render_node(node_view(*node)),
    decreases *node, 1nat,
{
    match node {
        AstNode::Text(text) => append_string(out, &text.content),
        AstNode::Block(block) => spread(block.content.as_slice(), out),
        AstNode::If(if_node) => enqueue_if(if_node, out),
        AstNode::For(for_node) => enqueue_for(for_node, out),
        AstNode::Ifchanged(ifchanged) => enqueue_ifchanged(ifchanged, out),
        AstNode::CommentBlock(c) => enqueue_bookend(&c.raw, &c.content, "{% endcomment %}", out),
        AstNode::Verbatim(v) => enqueue_bookend(&v.raw, &v.content, "{% endverbatim %}", out),
        AstNode::Blocktranslate(b) => enqueue_body(&b.raw, &b.body, "{% endblocktranslate %}", out),
        AstNode::With(w) => enqueue_body(&w.raw, &w.body, "{% endwith %}", out),
        AstNode::Autoescape(a) => enqueue_body(&a.raw, &a.body, "{% endautoescape %}", out),
        AstNode::Language(l) => enqueue_body(&l.raw, &l.body, "{% endlanguage %}", out),
        AstNode::FilterBlock(f) => enqueue_body(&f.raw, &f.body, "{% endfilter %}", out),
        AstNode::Cache(c) => enqueue_body(&c.raw, &c.body, "{% endcache %}", out),
        AstNode::Localize(l) => enqueue_body(&l.raw, &l.body, "{% endlocalize %}", out),
        AstNode::Localtime(l) => enqueue_body(&l.raw, &l.body, "{% endlocaltime %}", out),
        AstNode::Spaceless(s) => enqueue_body(&s.raw, &s.body, "{% endspaceless %}", out),
        AstNode::Timezone(t) => enqueue_body(&t.raw, &t.body, "{% endtimezone %}", out),
        AstNode::Utc(u) => enqueue_body(&u.raw, &u.body, "{% endutc %}", out),
        _ => {
            let raw = enqueue_raw(node);
            append_string(out, raw);
        },
    }
}

/// The template text of a syntax tree.
pub fn generate(nodes: &[AstNode]) -> (r: String)
    requires
        work_nodes(nodes_view(nodes@)) <= WORK_ITERATIONS_MAX,
        utf8_len(render_nodes(nodes_view(nodes@))) <= COLLAPSE_LENGTH_MAX,
    ensures
        r@ == generate_spec(nodes_view(nodes@)),
{
    let mut output: Vec<char> = Vec::new();
    spread(nodes, &mut output);
    assert(output@ =~= render_nodes(nodes_view(nodes@)));
    collapse(&output)
}

/// A work count, capped one past the generator's limit.
pub open spec fn capped(n: nat) -> nat {
    if n > WORK_ITERATIONS_MAX + 1 {
        (WORK_ITERATIONS_MAX + 1) as nat
    } else {
        n
    }
}

fn add_capped(a: u64, b: u64) -> (r: u64)
    requires
        a <= WORK_ITERATIONS_MAX + 1,
        b <= WORK_ITERATIONS_MAX + 1,
    ensures
        r == capped((a + b) as nat),
{
    let c = WORK_ITERATIONS_MAX as u64 + 1;
    if a + b > c {
        c
    } else {
        a + b
    }
}

proof fn lemma_capped_add(x: nat, y: nat)
    ensures
        capped(capped(x) + capped(y)) == capped(x + y),
{
}

/// The generator's work count for `nodes`, capped.
fn work_of_nodes(nodes: &[AstNode]) -> (r: u64)
    ensures
        r == capped(work_nodes(nodes_view(nodes@))),
    decreases nodes@, 0nat,
{
    let mut total: u64 = 0;
    let mut i: usize = 0;
    assert(nodes_view(nodes@.take(0)) =~= Seq::<NodeModel>::empty());
    while i < nodes.len()
        invariant
            i <= nodes.len(),
            total == capped(work_nodes(nodes_view(nodes@.take(i as int)))),
        decreases nodes.len() - i,
    {
        let w = work_of_node(&nodes[i]);
        proof {
            assert(nodes@.take(i + 1).drop_last() =~= nodes@.take(i as int));
            let ns = nodes_view(nodes@.take(i + 1));
            assert(ns.drop_last() =~= nodes_view(nodes@.take(i as int)));
            assert(ns.last() == node_view(nodes@[i as int]));
            lemma_capped_add(work_nodes(nodes_view(nodes@.take(i as int))), work_node(node_view(nodes@[i as int])));
        }
        total = add_capped(total, w);
        i += 1;
    }
    assert(nodes@.take(nodes.len() as int) =~= nodes@);
    total
}

fn work_of_else(branch: &Option<Vec<AstNode>>) -> (r: u64)
    ensures
        r == capped(work_else(crate::compiler::ast::opt_nodes_view(*branch))),
    decreases *branch, 1nat,
{
    match branch {
        Some(b) => {
            let w = work_of_nodes(b.as_slice());
            proof {
                lemma_capped_add(1, work_nodes(nodes_view(b@)));
            }
            add_capped(1, w)
        },
        None => 0,
    }
}

fn work_of_if(node: &IfNode) -> (r: u64)
    ensures
        r == capped(
            3 + work_nodes(nodes_view(node.true_branch@)) + work_elifs(
                crate::compiler::ast::elifs_view(node.elif_branches@),
            ) + work_else(crate::compiler::ast::opt_nodes_view(node.else_branch)),
        ),
    decreases *node, 0nat,
{
    let t = work_of_nodes(node.true_branch.as_slice());
    proof {
        lemma_capped_add(3, work_nodes(nodes_view(node.true_branch@)));
    }
    let mut total = add_capped(3, t);
    let ghost base = 3 + work_nodes(nodes_view(node.true_branch@));
    let ghost es = node.elif_branches@;
    let mut k: usize = 0;
    assert(crate::compiler::ast::elifs_view(es.take(0)) =~= Seq::<ElifModel>::empty());
    while k < node.elif_branches.len()
        invariant
            k <= es.len(),
            es == node.elif_branches@,
            total == capped(base + work_elifs(crate::compiler::ast::elifs_view(es.take(k as int)))),
        decreases es.len() - k,
    {
        let w = work_of_nodes(node.elif_branches[k].body.as_slice());
        proof {
            assert(es.take(k + 1).drop_last() =~= es.take(k as int));
            let ev = crate::compiler::ast::elifs_view(es.take(k + 1));
            assert(ev.drop_last() =~= crate::compiler::ast::elifs_view(es.take(k as int)));
            lemma_capped_add(
                base + work_elifs(crate::compiler::ast::elifs_view(es.take(k as int))),
                3 + work_nodes(nodes_view(es[k as int].body@)),
            );
            lemma_capped_add(3, work_nodes(nodes_view(es[k as int].body@)));
        }
        let w3 = add_capped(3, w);
        total = add_capped(total, w3);
        k += 1;
    }
    assert(es.take(es.len() as int) =~= es);
    let e = work_of_else(&node.else_branch);
    proof {
        lemma_capped_add(
            base + work_elifs(crate::compiler::ast::elifs_view(es)),
            work_else(crate::compiler::ast::opt_nodes_view(node.else_branch)),
        );
    }
    add_capped(total, e)
}

fn work_of_body(body: &Vec<AstNode>, extra: u64) -> (r: u64)
    requires
        extra <= 3,
    ensures
        r == capped(extra as nat + work_nodes(nodes_view(body@))),
    decreases body@, 1nat,
{
    let w = work_of_nodes(body.as_slice());
    proof {
        lemma_capped_add(extra as nat, work_nodes(nodes_view(body@)));
    }
    add_capped(extra, w)
}

/// The generator's work count for `node`, capped.
fn work_of_node(node: &AstNode) -> (r: u64)
    ensures
        r == capped(work_node(node_view(*node))),
    decreases *node, 1nat,
{
    match node {
        AstNode::Block(b) => work_of_body(&b.content, 1),
        AstNode::If(x) => work_of_if(x),
        AstNode::For(x) => {
            let b = work_of_body(&x.body, 3);
            let e = work_of_else(&x.empty_branch);
            proof {
                lemma_capped_add(
                    3 + work_nodes(nodes_view(x.body@)),
                    work_else(crate::compiler::ast::opt_nodes_view(x.empty_branch)),
                );
            }
            add_capped(b, e)
        },
        AstNode::Ifchanged(x) => {
            let b = work_of_body(&x.true_branch, 3);
            let e = work_of_else(&x.else_branch);
            proof {
                lemma_capped_add(
                    3 + work_nodes(nodes_view(x.true_branch@)),
                    work_else(crate::compiler::ast::opt_nodes_view(x.else_branch)),
                );
            }
            add_capped(b, e)
        },
        AstNode::CommentBlock(_) => 4,
        AstNode::Verbatim(_) => 4,
        AstNode::Blocktranslate(x) => work_of_body(&x.body, 3),
        AstNode::With(x) => work_of_body(&x.body, 3),
        AstNode::Autoescape(x) => work_of_body(&x.body, 3),
        AstNode::Language(x) => work_of_body(&x.body, 3),
        AstNode::FilterBlock(x) => work_of_body(&x.body, 3),
        AstNode::Cache(x) => work_of_body(&x.body, 3),
        AstNode::Localize(x) => work_of_body(&x.body, 3),
        AstNode::Localtime(x) => work_of_body(&x.body, 3),
        AstNode::Spaceless(x) => work_of_body(&x.body, 3),
        AstNode::Timezone(x) => work_of_body(&x.body, 3),
        AstNode::Utc(x) => work_of_body(&x.body, 3),
        _ => 2,
    }
}

/// Whether a tree is within the generator's limits: at most its number of
/// work items, and template text of at most its length in bytes.
pub open spec fn generate_fits(ns: Seq<NodeModel>) -> bool {
    work_nodes(ns) <= WORK_ITERATIONS_MAX && utf8_len(render_nodes(ns)) <= COLLAPSE_LENGTH_MAX
}

/// The template text of a syntax tree, or `None` for a tree beyond the
/// generator's limits.
pub fn generate_checked(nodes: &[AstNode]) -> (r: Option<String>)
    ensures
        match r {
            Some(s) => generate_fits(nodes_view(nodes@)) && s@ == generate_spec(nodes_view(nodes@)),
            None => !generate_fits(nodes_view(nodes@)),
        },
{
    if work_of_nodes(nodes) > WORK_ITERATIONS_MAX as u64 {
        return None;
    }
    let mut output: Vec<char> = Vec::new();
    spread(nodes, &mut output);
    assert(output@ =~= render_nodes(nodes_view(nodes@)));
    assert(output@.subrange(0, output@.len() as int) =~= output@);
    if crate::text::utf8_len_exceeds(&output, 0, output.len(), COLLAPSE_LENGTH_MAX) {
        return None;
    }
    Some(collapse(&output))
}

proof fn lemma_line_end_bounds(s: Seq<char>, pos: int)
    requires
        0 <= pos <= s.len(),
    ensures
        pos <= line_end(s, pos) <= s.len(),
        line_end(s, pos) < s.len() ==> s[line_end(s, pos)] == '\n',
        forall|k: int| pos <= k < line_end(s, pos) ==> s[k] != '\n',
    decreases s.len() - pos,
{
    if pos < s.len() && s[pos] != '\n' {
        lemma_line_end_bounds(s, pos + 1);
    }
}

proof fn lemma_collapse_len(s: Seq<char>, pos: int, was_blank: bool, first: bool, acc: Seq<char>)
    requires
        0 <= pos <= s.len() + 1,
        first ==> acc.len() == 0,
        !first ==> acc.len() + 1 <= pos,
    ensures
        collapse_from(s, pos, was_blank, first, acc).len() <= s.len(),
        s.len() > 0 && s.last() == '\n' && pos <= s.len() && !(collapse_from(
            s,
            pos,
            was_blank,
            first,
            acc,
        ).len() > 0 && collapse_from(s, pos, was_blank, first, acc).last() == '\n') ==> collapse_from(
            s,
            pos,
            was_blank,
            first,
            acc,
        ).len() < s.len(),
    decreases s.len() + 1 - pos,
{
    if pos <= s.len() {
        lemma_line_end_bounds(s, pos);
        let end = line_end(s, pos);
        let line = s.subrange(pos, end);
        if s.len() > 0 && s.last() == '\n' && pos < s.len() {
            assert(end <= s.len() - 1) by {
                if end == s.len() {
                    assert(s[s.len() - 1] != '\n');
                }
            }
        }
        if is_blank(line) {
            let acc2 = if !was_blank && !first {
                acc.push('\n')
            } else {
                acc
            };
            lemma_collapse_len(s, end + 1, true, first, acc2);
        } else {
            let acc2 = (if !first {
                acc.push('\n')
            } else {
                acc
            }) + line;
            lemma_collapse_len(s, end + 1, false, false, acc2);
        }
    }
}

/// Collapsing never lengthens a text.
pub proof fn law_collapse_shrinks(s: Seq<char>)
    ensures
        collapse_spec(s).len() <= s.len(),
{
    lemma_collapse_len(s, 0, false, true, seq![]);
}

/// No three `\n` in a row in `s`.
pub open spec fn no_triple_newline(s: Seq<char>) -> bool {
    forall|i: int| 0 <= i < s.len() - 2 ==> !(#[trigger] s[i] == '\n' && s[i + 1] == '\n' && s[i + 2] == '\n')
}

/// The state of collapsing: text so far has no three `\n` in a row, ends
/// in at most one `\n` (after a blank line), and in none right after a
/// non-blank line.
spec fn collapse_inv(was_blank: bool, first: bool, acc: Seq<char>) -> bool {
    &&& no_triple_newline(acc)
    &&& first ==> acc.len() == 0
    &&& !first ==> acc.len() > 0
    &&& acc.len() > 0 && acc.last() == '\n' ==> was_blank && acc.len() >= 2 && acc[acc.len() - 2] != '\n'
}

proof fn lemma_collapse_triple(s: Seq<char>, pos: int, was_blank: bool, first: bool, acc: Seq<char>)
    requires
        0 <= pos,
        collapse_inv(was_blank, first, acc),
    ensures
        no_triple_newline(collapse_from(s, pos, was_blank, first, acc)),
        ({
            let r = collapse_from(s, pos, was_blank, first, acc);
            r.len() > 0 && r.last() == '\n' ==> r.len() >= 2 && r[r.len() - 2] != '\n'
        }),
    decreases s.len() + 1 - pos,
{
    if pos <= s.len() {
        lemma_line_end_bounds(s, pos);
        let end = line_end(s, pos);
        let line = s.subrange(pos, end);
        if is_blank(line) {
            if !was_blank && !first {
                let acc2 = acc.push('\n');
                assert(acc.len() > 0);
                assert(acc.last() != '\n');
                assert forall|i: int| 0 <= i < acc2.len() - 2 implies !(#[trigger] acc2[i] == '\n' && acc2[i + 1]
                    == '\n' && acc2[i + 2] == '\n') by {
                    if i + 2 < acc.len() {
                        assert(acc2[i] == acc[i] && acc2[i + 1] == acc[i + 1] && acc2[i + 2] == acc[i + 2]);
                    } else {
                        assert(acc2[i + 1] == acc[acc.len() - 1]);
                    }
                }
                lemma_collapse_triple(s, end + 1, true, first, acc2);
            } else {
                lemma_collapse_triple(s, end + 1, true, first, acc);
            }
        } else {
            assert(line.len() > 0) by {
                if line.len() == 0 {
                    assert(is_blank(line));
                }
            }
            let pre = if !first {
                acc.push('\n')
            } else {
                acc
            };
            let acc2 = pre + line;
            assert forall|k: int| 0 <= k < line.len() implies line[k] != '\n' by {
                assert(line[k] == s[pos + k]);
            }
            assert forall|i: int| 0 <= i < acc2.len() - 2 implies !(#[trigger] acc2[i] == '\n' && acc2[i + 1]
                == '\n' && acc2[i + 2] == '\n') by {
                if i + 2 < pre.len() {
                    if !first {
                        if i + 2 < acc.len() {
                            assert(acc2[i] == acc[i] && acc2[i + 1] == acc[i + 1] && acc2[i + 2] == acc[i + 2]);
                        } else {
                            assert(acc2[i] == acc[acc.len() - 2]);
                            assert(acc2[i + 1] == acc[acc.len() - 1]);
                        }
                    }
                } else {
                    assert(acc2[i + 2] == line[i + 2 - pre.len()]);
                }
            }
            assert(acc2.last() == line.last());
            lemma_collapse_triple(s, end + 1, false, false, acc2);
        }
    }
}

/// Collapsing leaves no three `\n` in a row.
pub proof fn law_collapse_no_triple_newline(s: Seq<char>)
    ensures
        no_triple_newline(collapse_spec(s)),
{
    lemma_collapse_triple(s, 0, false, true, seq![]);
    let joined = collapse_from(s, 0, false, true, seq![]);
    let trimmed = if joined.len() > 0 && joined.last() == '\n' {
        joined.drop_last()
    } else {
        joined
    };
    assert forall|i: int| 0 <= i < trimmed.len() - 2 implies !(#[trigger] trimmed[i] == '\n' && trimmed[i + 1]
        == '\n' && trimmed[i + 2] == '\n') by {
        assert(trimmed[i] == joined[i] && trimmed[i + 1] == joined[i + 1] && trimmed[i + 2] == joined[i + 2]);
    }
    if s.len() > 0 && s.last() == '\n' {
        let r = trimmed.push('\n');
        assert(trimmed.len() > 0 && trimmed.last() == '\n' ==> trimmed.len() >= 2 && trimmed[trimmed.len() - 2] != '\n') by {
            if trimmed.len() > 0 && trimmed.last() == '\n' {
                assert(trimmed.last() == joined[trimmed.len() - 1]);
                if joined.len() > 0 && joined.last() == '\n' {
                    assert(joined[joined.len() - 2] != '\n');
                }
            }
        }
        assert forall|i: int| 0 <= i < r.len() - 2 implies !(#[trigger] r[i] == '\n' && r[i + 1] == '\n' && r[i
            + 2] == '\n') by {
            if i + 2 < trimmed.len() {
                assert(r[i] == trimmed[i] && r[i + 1] == trimmed[i + 1] && r[i + 2] == trimmed[i + 2]);
            } else {
                assert(r[i] == trimmed[i] && r[i + 1] == trimmed[i + 1]);
            }
        }
    }
}

/// A collapsed text ends with `\n` exactly when the text it came from does.
pub proof fn law_collapse_keeps_final_newline(s: Seq<char>)
    ensures
        (collapse_spec(s).len() > 0 && collapse_spec(s).last() == '\n') <==> (s.len() > 0 && s.last()
            == '\n'),
{
    lemma_collapse_triple(s, 0, false, true, seq![]);
    let joined = collapse_from(s, 0, false, true, seq![]);
    if joined.len() > 0 && joined.last() == '\n' {
        let trimmed = joined.drop_last();
        assert(trimmed.len() > 0 ==> trimmed.last() == joined[joined.len() - 2]);
    }
}

/// The lines of `s` from `pos` on: the pieces between `\n`s.
pub open spec fn text_lines_from(s: Seq<char>, pos: int) -> Seq<Seq<char>>
    decreases s.len() + 1 - pos,
{
    if pos < 0 || pos > s.len() {
        seq![]
    } else {
        let end = line_end(s, pos);
        if end < pos || end > s.len() {
            seq![]
        } else {
            seq![s.subrange(pos, end)] + text_lines_from(s, end + 1)
        }
    }
}

/// The lines of `s`.
pub open spec fn text_lines(s: Seq<char>) -> Seq<Seq<char>> {
    text_lines_from(s, 0)
}

/// The lines of `ls` that are not blank, in order.
pub open spec fn nonblank_lines(ls: Seq<Seq<char>>) -> Seq<Seq<char>>
    decreases ls.len(),
{
    if ls.len() == 0 {
        seq![]
    } else if is_blank(ls[0]) {
        nonblank_lines(ls.drop_first())
    } else {
        seq![ls[0]] + nonblank_lines(ls.drop_first())
    }
}

/// `ls` joined with `\n`s.
pub open spec fn nl_join(ls: Seq<Seq<char>>) -> Seq<char>
    decreases ls.len(),
{
    if ls.len() == 0 {
        seq![]
    } else if ls.len() == 1 {
        ls[0]
    } else {
        nl_join(ls.drop_last()) + seq!['\n'] + ls.last()
    }
}

/// The lines collapsing keeps, from the lines `ls` on: each non-blank line,
/// and one empty line for each run of blank lines after a kept line.
pub open spec fn kept_lines(ls: Seq<Seq<char>>, was_blank: bool, first: bool, out: Seq<Seq<char>>) -> Seq<Seq<char>>
    decreases ls.len(),
{
    if ls.len() == 0 {
        out
    } else if is_blank(ls[0]) {
        kept_lines(ls.drop_first(), true, first, if !was_blank && !first {
            out.push(seq![])
        } else {
            out
        })
    } else {
        kept_lines(ls.drop_first(), false, false, out.push(ls[0]))
    }
}

pub open spec fn no_newline(l: Seq<char>) -> bool {
    forall|k: int| 0 <= k < l.len() ==> l[k] != '\n'
}

proof fn lemma_text_lines_from(s: Seq<char>, pos: int, was_blank: bool, first: bool, acc: Seq<char>, out: Seq<Seq<char>>)
    requires
        0 <= pos,
        first ==> acc.len() == 0 && out.len() == 0,
        !first ==> out.len() > 0 && acc == nl_join(out),
    ensures
        collapse_from(s, pos, was_blank, first, acc) == nl_join(
            kept_lines(text_lines_from(s, pos), was_blank, first, out),
        ),
        forall|k: int| 0 <= k < text_lines_from(s, pos).len() ==> no_newline(#[trigger] text_lines_from(s, pos)[k]),
    decreases s.len() + 1 - pos,
{
    if pos <= s.len() {
        lemma_line_end_bounds(s, pos);
        let end = line_end(s, pos);
        let line = s.subrange(pos, end);
        let ls = text_lines_from(s, pos);
        assert(ls[0] == line);
        assert(ls.drop_first() == text_lines_from(s, end + 1));
        if is_blank(line) {
            let out2 = if !was_blank && !first {
                out.push(seq![])
            } else {
                out
            };
            let acc2 = if !was_blank && !first {
                acc.push('\n')
            } else {
                acc
            };
            if !was_blank && !first {
                assert(out2.drop_last() =~= out);
                assert(acc2 =~= nl_join(out) + seq!['\n'] + Seq::<char>::empty());
            }
            lemma_text_lines_from(s, end + 1, true, first, acc2, out2);
        } else {
            let out2 = out.push(line);
            let acc2 = (if !first {
                acc.push('\n')
            } else {
                acc
            }) + line;
            assert(out2.drop_last() =~= out);
            if first {
                assert(acc2 =~= line);
            } else {
                assert(acc2 =~= nl_join(out) + seq!['\n'] + line);
            }
            lemma_text_lines_from(s, end + 1, false, false, acc2, out2);
        }
        assert forall|k: int| 0 <= k < ls.len() implies no_newline(#[trigger] ls[k]) by {
            if k == 0 {
                assert forall|j: int| 0 <= j < line.len() implies line[j] != '\n' by {
                    assert(line[j] == s[pos + j]);
                }
            } else {
                assert(ls[k] == text_lines_from(s, end + 1)[k - 1]);
            }
        }
    } else {
        assert(text_lines_from(s, pos) =~= Seq::<Seq<char>>::empty());
    }
}

proof fn lemma_line_end_none(s: Seq<char>, pos: int)
    requires
        0 <= pos <= s.len(),
        forall|k: int| pos <= k < s.len() ==> s[k] != '\n',
    ensures
        line_end(s, pos) == s.len(),
    decreases s.len() - pos,
{
    if pos < s.len() {
        lemma_line_end_none(s, pos + 1);
    }
}

proof fn lemma_line_end_prefix(x: Seq<char>, b: Seq<char>, pos: int)
    requires
        0 <= pos <= x.len(),
    ensures
        line_end(x + seq!['\n'] + b, pos) == line_end(x, pos),
    decreases x.len() - pos,
{
    let y = x + seq!['\n'] + b;
    if pos < x.len() {
        assert(y[pos] == x[pos]);
        if x[pos] != '\n' {
            lemma_line_end_prefix(x, b, pos + 1);
        }
    } else {
        assert(y[pos] == '\n');
    }
}

proof fn lemma_text_lines_append(x: Seq<char>, b: Seq<char>, pos: int)
    requires
        0 <= pos <= x.len(),
        no_newline(b),
    ensures
        text_lines_from(x + seq!['\n'] + b, pos) == text_lines_from(x, pos).push(b),
    decreases x.len() - pos,
{
    let y = x + seq!['\n'] + b;
    lemma_line_end_prefix(x, b, pos);
    lemma_line_end_bounds(x, pos);
    let end = line_end(x, pos);
    assert(y.subrange(pos, end) =~= x.subrange(pos, end));
    if end < x.len() {
        lemma_text_lines_append(x, b, end + 1);
        assert(seq![x.subrange(pos, end)] + text_lines_from(x, end + 1).push(b) =~= (seq![
            x.subrange(pos, end),
        ] + text_lines_from(x, end + 1)).push(b));
    } else {
        let p2: int = x.len() as int + 1;
        assert forall|k: int| p2 <= k < y.len() implies y[k] != '\n' by {
            assert(y[k] == b[k - p2]);
        }
        lemma_line_end_none(y, p2);
        assert(y.subrange(p2, y.len() as int) =~= b);
        assert(text_lines_from(y, y.len() as int + 1) =~= Seq::<Seq<char>>::empty());
        assert(text_lines_from(y, p2) =~= seq![b]);
        assert(text_lines_from(x, x.len() as int + 1) =~= Seq::<Seq<char>>::empty());
        assert(text_lines_from(x, pos) =~= seq![x.subrange(pos, end)]);
        assert(text_lines_from(y, pos) =~= seq![x.subrange(pos, end), b]);
    }
}

/// Lines without `\n`s joined with `\n`s split back into those lines.
proof fn lemma_lines_of_join(ls: Seq<Seq<char>>)
    requires
        ls.len() > 0,
        forall|k: int| 0 <= k < ls.len() ==> no_newline(#[trigger] ls[k]),
    ensures
        text_lines(nl_join(ls)) == ls,
    decreases ls.len(),
{
    if ls.len() == 1 {
        let l = ls[0];
        assert(no_newline(l));
        lemma_line_end_none(l, 0);
        assert(l.subrange(0, l.len() as int) =~= l);
        assert(text_lines_from(l, l.len() as int + 1) =~= Seq::<Seq<char>>::empty());
        assert(text_lines(l) =~= ls);
    } else {
        let init = ls.drop_last();
        assert forall|k: int| 0 <= k < init.len() implies no_newline(#[trigger] init[k]) by {
            assert(init[k] == ls[k]);
        }
        lemma_lines_of_join(init);
        assert(no_newline(ls.last()));
        lemma_text_lines_append(nl_join(init), ls.last(), 0);
        assert(init.push(ls.last()) =~= ls);
    }
}

/// The shape of the lines collapsing keeps: none holds a `\n`, a blank one is
/// empty, the first is not blank, and no two blank ones are adjacent.
pub open spec fn canonical_lines(o: Seq<Seq<char>>) -> bool {
    &&& forall|k: int| 0 <= k < o.len() ==> no_newline(#[trigger] o[k])
    &&& forall|k: int| 0 <= k < o.len() && is_blank(#[trigger] o[k]) ==> o[k].len() == 0
    &&& o.len() > 0 ==> !is_blank(o[0])
    &&& forall|k: int| 0 < k < o.len() && is_blank(#[trigger] o[k]) ==> !is_blank(o[k - 1])
}

proof fn lemma_nonblank_single(l: Seq<char>)
    ensures
        nonblank_lines(seq![l]) == if is_blank(l) {
            Seq::<Seq<char>>::empty()
        } else {
            seq![l]
        },
{
    assert(seq![l].drop_first() =~= Seq::<Seq<char>>::empty());
    assert(nonblank_lines(Seq::<Seq<char>>::empty()) == Seq::<Seq<char>>::empty());
    assert(seq![l] + Seq::<Seq<char>>::empty() =~= seq![l]);
}

proof fn lemma_nonblank_add(a: Seq<Seq<char>>, b: Seq<Seq<char>>)
    ensures
        nonblank_lines(a + b) == nonblank_lines(a) + nonblank_lines(b),
    decreases a.len(),
{
    if a.len() == 0 {
        assert(a + b =~= b);
        assert(Seq::<Seq<char>>::empty() + nonblank_lines(b) =~= nonblank_lines(b));
    } else {
        assert((a + b).drop_first() =~= a.drop_first() + b);
        assert((a + b)[0] == a[0]);
        lemma_nonblank_add(a.drop_first(), b);
        if !is_blank(a[0]) {
            assert(seq![a[0]] + (nonblank_lines(a.drop_first()) + nonblank_lines(b)) =~= (seq![a[0]]
                + nonblank_lines(a.drop_first())) + nonblank_lines(b));
        }
    }
}

proof fn lemma_kept_lines(ls: Seq<Seq<char>>, was_blank: bool, first: bool, out: Seq<Seq<char>>)
    requires
        canonical_lines(out),
        forall|k: int| 0 <= k < ls.len() ==> no_newline(#[trigger] ls[k]),
        first ==> out.len() == 0,
        !first ==> out.len() > 0 && (was_blank <==> is_blank(out.last())),
    ensures
        canonical_lines(kept_lines(ls, was_blank, first, out)),
        nonblank_lines(kept_lines(ls, was_blank, first, out)) == nonblank_lines(out) + nonblank_lines(ls),
    decreases ls.len(),
{
    if ls.len() == 0 {
        assert(nonblank_lines(out) + nonblank_lines(ls) =~= nonblank_lines(out));
    } else {
        let rest = ls.drop_first();
        assert forall|k: int| 0 <= k < rest.len() implies no_newline(#[trigger] rest[k]) by {
            assert(rest[k] == ls[k + 1]);
        }
        let l = ls[0];
        if is_blank(l) {
            if !was_blank && !first {
                let out2 = out.push(seq![]);
                assert(is_blank(Seq::<char>::empty()));
                assert forall|k: int| 0 <= k < out2.len() implies no_newline(#[trigger] out2[k]) by {
                    if k < out.len() {
                        assert(out2[k] == out[k]);
                    }
                }
                assert forall|k: int| 0 <= k < out2.len() && is_blank(#[trigger] out2[k]) implies out2[k].len() == 0 by {
                    if k < out.len() {
                        assert(out2[k] == out[k]);
                    }
                }
                assert forall|k: int| 0 < k < out2.len() && is_blank(#[trigger] out2[k]) implies !is_blank(out2[k - 1]) by {
                    if k < out.len() {
                        assert(out2[k] == out[k]);
                        assert(out2[k - 1] == out[k - 1]);
                    } else {
                        assert(out2[k - 1] == out.last());
                    }
                }
                assert(out2[0] == out[0]);
                lemma_kept_lines(rest, true, first, out2);
                lemma_nonblank_add(out, seq![seq![]]);
                lemma_nonblank_single(Seq::<char>::empty());
                assert(out + seq![Seq::<char>::empty()] =~= out2);
                assert(nonblank_lines(out2) =~= nonblank_lines(out));
            } else {
                lemma_kept_lines(rest, true, first, out);
            }
        } else {
            let out2 = out.push(l);
            assert forall|k: int| 0 <= k < out2.len() implies no_newline(#[trigger] out2[k]) by {
                if k < out.len() {
                    assert(out2[k] == out[k]);
                }
            }
            assert forall|k: int| 0 <= k < out2.len() && is_blank(#[trigger] out2[k]) implies out2[k].len() == 0 by {
                if k < out.len() {
                    assert(out2[k] == out[k]);
                }
            }
            assert forall|k: int| 0 < k < out2.len() && is_blank(#[trigger] out2[k]) implies !is_blank(out2[k - 1]) by {
                if k < out.len() {
                    assert(out2[k] == out[k]);
                    assert(out2[k - 1] == out[k - 1]);
                }
            }
            if out.len() > 0 {
                assert(out2[0] == out[0]);
            }
            lemma_kept_lines(rest, false, false, out2);
            lemma_nonblank_add(out, seq![l]);
            lemma_nonblank_single(l);
        }
        lemma_nonblank_add(seq![l], rest);
        assert(seq![l] + rest =~= ls);
        lemma_nonblank_single(l);
        if is_blank(l) {
            assert(nonblank_lines(ls) =~= nonblank_lines(rest));
        } else {
            assert(out + seq![l] =~= out.push(l));
            assert(nonblank_lines(out.push(l)) =~= nonblank_lines(out) + seq![l]);
            assert((nonblank_lines(out) + seq![l]) + nonblank_lines(rest) =~= nonblank_lines(out) + (seq![l]
                + nonblank_lines(rest)));
        }
    }
}

proof fn lemma_kept_fixpoint(o: Seq<Seq<char>>, i: int)
    requires
        canonical_lines(o),
        0 <= i <= o.len(),
    ensures
        kept_lines(o.skip(i), i > 0 && is_blank(o[i - 1]), i == 0, o.take(i)) == o,
    decreases o.len() - i,
{
    if i == o.len() {
        assert(o.take(i) =~= o);
    } else {
        let rest = o.skip(i);
        assert(rest[0] == o[i]);
        assert(rest.drop_first() =~= o.skip(i + 1));
        assert(o.take(i).push(o[i]) =~= o.take(i + 1));
        if is_blank(o[i]) {
            assert(i > 0);
            assert(o[i] =~= Seq::<char>::empty());
        }
        lemma_kept_fixpoint(o, i + 1);
    }
}

proof fn lemma_canonical_prefix(o: Seq<Seq<char>>, n: int)
    requires
        canonical_lines(o),
        0 <= n <= o.len(),
    ensures
        canonical_lines(o.take(n)),
{
    let t = o.take(n);
    assert forall|k: int| 0 <= k < t.len() implies no_newline(#[trigger] t[k]) by {
        assert(t[k] == o[k]);
    }
    assert forall|k: int| 0 <= k < t.len() && is_blank(#[trigger] t[k]) implies t[k].len() == 0 by {
        assert(t[k] == o[k]);
    }
    assert forall|k: int| 0 < k < t.len() && is_blank(#[trigger] t[k]) implies !is_blank(t[k - 1]) by {
        assert(t[k] == o[k]);
        assert(t[k - 1] == o[k - 1]);
    }
    if t.len() > 0 {
        assert(t[0] == o[0]);
    }
}

/// The kept lines without a final empty one.
pub open spec fn trim_kept(o: Seq<Seq<char>>) -> Seq<Seq<char>> {
    if o.len() > 0 && o.last().len() == 0 {
        o.drop_last()
    } else {
        o
    }
}

/// Collapsing a text is joining its kept lines, the last empty one left
/// out, and adding `\n` when the text ends with one.
proof fn lemma_collapse_shape(s: Seq<char>)
    ensures
        canonical_lines(trim_kept(kept_lines(text_lines(s), false, true, seq![]))),
        trim_kept(kept_lines(text_lines(s), false, true, seq![])).len() > 0 ==> !is_blank(
            trim_kept(kept_lines(text_lines(s), false, true, seq![])).last(),
        ),
        collapse_spec(s) == if s.len() > 0 && s.last() == '\n' {
            nl_join(trim_kept(kept_lines(text_lines(s), false, true, seq![]))).push('\n')
        } else {
            nl_join(trim_kept(kept_lines(text_lines(s), false, true, seq![])))
        },
        nonblank_lines(trim_kept(kept_lines(text_lines(s), false, true, seq![]))) == nonblank_lines(
            text_lines(s),
        ),
{
    let ls = text_lines(s);
    lemma_text_lines_from(s, 0, false, true, seq![], seq![]);
    assert(canonical_lines(Seq::<Seq<char>>::empty()));
    lemma_kept_lines(ls, false, true, seq![]);
    let o = kept_lines(ls, false, true, seq![]);
    let o2 = trim_kept(o);
    let joined = collapse_from(s, 0, false, true, seq![]);
    assert(joined == nl_join(o));
    assert(nonblank_lines(Seq::<Seq<char>>::empty()) + nonblank_lines(ls) =~= nonblank_lines(ls));
    if o.len() > 0 && o.last().len() == 0 {
        assert(o.len() >= 2) by {
            assert(!is_blank(o[0]));
            if o.len() == 1 {
                assert(is_blank(o[0]));
            }
        }
        lemma_canonical_prefix(o, o.len() - 1);
        assert(o.take(o.len() - 1) =~= o2);
        assert(joined == nl_join(o2) + seq!['\n'] + Seq::<char>::empty());
        assert(joined.drop_last() =~= nl_join(o2));
        assert(is_blank(o.last()));
        assert(o2.len() > 0 ==> o2.last() == o[o.len() - 2]);
        lemma_nonblank_add(o2, seq![o.last()]);
        assert(o2 + seq![o.last()] =~= o);
        lemma_nonblank_single(o.last());
        assert(nonblank_lines(o2) + Seq::<Seq<char>>::empty() =~= nonblank_lines(o2));
    } else {
        assert(o2 == o);
        if o.len() > 0 {
            assert(o.last().len() > 0);
            assert(!is_blank(o.last()));
            lemma_nl_join_last(o);
        }
    }
}

proof fn lemma_nl_join_last(o: Seq<Seq<char>>)
    requires
        o.len() > 0,
        o.last().len() > 0,
    ensures
        nl_join(o).len() > 0,
        nl_join(o).last() == o.last().last(),
{
}

proof fn lemma_canonical_push_empty(o: Seq<Seq<char>>)
    requires
        canonical_lines(o),
        o.len() > 0,
        !is_blank(o.last()),
    ensures
        canonical_lines(o.push(seq![])),
{
    let p = o.push(seq![]);
    assert forall|k: int| 0 <= k < p.len() implies no_newline(#[trigger] p[k]) by {
        if k < o.len() {
            assert(p[k] == o[k]);
        }
    }
    assert forall|k: int| 0 <= k < p.len() && is_blank(#[trigger] p[k]) implies p[k].len() == 0 by {
        if k < o.len() {
            assert(p[k] == o[k]);
        }
    }
    assert forall|k: int| 0 < k < p.len() && is_blank(#[trigger] p[k]) implies !is_blank(p[k - 1]) by {
        if k < o.len() {
            assert(p[k] == o[k]);
            assert(p[k - 1] == o[k - 1]);
        } else {
            assert(p[k - 1] == o.last());
        }
    }
    assert(p[0] == o[0]);
}

/// The lines of a collapsed text: its kept lines (one empty line when
/// there are none), and an empty last line when the text ends with `\n`.
proof fn lemma_collapsed_lines(s: Seq<char>)
    ensures
        ({
            let o2 = trim_kept(kept_lines(text_lines(s), false, true, seq![]));
            let base = if o2.len() == 0 {
                seq![Seq::<char>::empty()]
            } else {
                o2
            };
            text_lines(collapse_spec(s)) == if s.len() > 0 && s.last() == '\n' {
                base.push(seq![])
            } else {
                base
            }
        }),
{
    lemma_collapse_shape(s);
    let o2 = trim_kept(kept_lines(text_lines(s), false, true, seq![]));
    let e = s.len() > 0 && s.last() == '\n';
    let base = if o2.len() == 0 {
        seq![Seq::<char>::empty()]
    } else {
        o2
    };
    assert(no_newline(Seq::<char>::empty()));
    assert forall|k: int| 0 <= k < base.len() implies no_newline(#[trigger] base[k]) by {}
    assert(nl_join(base) == nl_join(o2));
    if e {
        let b2 = base.push(seq![]);
        assert(b2.drop_last() =~= base);
        assert(nl_join(b2) =~= nl_join(o2).push('\n'));
        assert forall|k: int| 0 <= k < b2.len() implies no_newline(#[trigger] b2[k]) by {
            if k < base.len() {
                assert(b2[k] == base[k]);
            }
        }
        lemma_lines_of_join(b2);
    } else {
        lemma_lines_of_join(base);
    }
}

/// Collapsing keeps the non-blank lines of a text, unchanged and in order.
pub proof fn law_collapse_keeps_nonblank_lines(s: Seq<char>)
    ensures
        nonblank_lines(text_lines(collapse_spec(s))) == nonblank_lines(text_lines(s)),
{
    lemma_collapse_shape(s);
    lemma_collapsed_lines(s);
    let o2 = trim_kept(kept_lines(text_lines(s), false, true, seq![]));
    let base = if o2.len() == 0 {
        seq![Seq::<char>::empty()]
    } else {
        o2
    };
    lemma_nonblank_single(Seq::<char>::empty());
    assert(is_blank(Seq::<char>::empty()));
    assert(nonblank_lines(base) == nonblank_lines(o2)) by {
        if o2.len() == 0 {
            assert(nonblank_lines(o2) == Seq::<Seq<char>>::empty());
        }
    }
    lemma_nonblank_add(base, seq![seq![]]);
    assert(base + seq![Seq::<char>::empty()] =~= base.push(seq![]));
    assert(nonblank_lines(base) + Seq::<Seq<char>>::empty() =~= nonblank_lines(base));
}

/// Collapsing a collapsed text changes nothing.
pub proof fn law_collapse_idempotent(s: Seq<char>)
    ensures
        collapse_spec(collapse_spec(s)) == collapse_spec(s),
{
    let r = collapse_spec(s);
    lemma_collapse_shape(s);
    lemma_collapsed_lines(s);
    lemma_collapse_shape(r);
    law_collapse_keeps_final_newline(s);
    let o2 = trim_kept(kept_lines(text_lines(s), false, true, seq![]));
    let e = s.len() > 0 && s.last() == '\n';
    let lr = text_lines(r);
    let kr = kept_lines(lr, false, true, seq![]);
    if o2.len() == 0 {
        let b: Seq<Seq<char>> = seq![Seq::<char>::empty()];
        assert(is_blank(Seq::<char>::empty()));
        assert(b.drop_first() =~= Seq::<Seq<char>>::empty());
        if e {
            let b2 = b.push(seq![]);
            assert(lr == b2);
            assert(b2[0] == Seq::<char>::empty() && b2[1] == Seq::<char>::empty());
            assert(b2.drop_first() =~= b);
            assert(kr == kept_lines(b, true, true, seq![]));
            assert(kept_lines(b, true, true, seq![]) == kept_lines(b.drop_first(), true, true, seq![]));
            assert(kept_lines(Seq::<Seq<char>>::empty(), true, true, seq![]) == Seq::<Seq<char>>::empty());
        } else {
            assert(lr == b);
            assert(kr == kept_lines(b.drop_first(), true, true, seq![]));
            assert(kept_lines(Seq::<Seq<char>>::empty(), true, true, seq![]) == Seq::<Seq<char>>::empty());
        }
    } else {
        assert(!is_blank(o2.last()));
        if e {
            let b2 = o2.push(seq![]);
            lemma_canonical_push_empty(o2);
            lemma_kept_fixpoint(b2, 0);
            assert(b2.skip(0) =~= b2);
            assert(b2.take(0) =~= Seq::<Seq<char>>::empty());
            assert(kr == b2);
            assert(trim_kept(b2) =~= o2);
        } else {
            lemma_kept_fixpoint(o2, 0);
            assert(o2.skip(0) =~= o2);
            assert(o2.take(0) =~= Seq::<Seq<char>>::empty());
            assert(kr == o2);
            assert(o2.last().len() > 0);
        }
    }
}

} // verus!
