//! The syntax tree of a template and its view.
use vstd::prelude::*;
use crate::compiler::lexer::{strings_view, FilterModel};

verus! {

/// Filter applied to a variable: `|default:"value"`.
#[derive(Debug, Clone, PartialEq)]
pub struct Filter {
    pub name: String,
    pub arguments: Vec<String>,
}

/// A condition and its body in an elif chain.
#[derive(Debug)]
pub struct ElifBranch {
    pub condition: String,
    pub body: Vec<AstNode>,
}

/// A `name=value` binding used by `{% with %}`, `{% include ... with %}`
/// and `{% querystring %}`.
#[derive(Debug, Clone)]
pub struct Binding {
    pub name: String,
    pub value: String,
}

/// Abstract syntax tree node.
#[derive(Debug)]
pub enum AstNode {
    Text(TextNode),
    Variable(Box<VariableNode>),
    Block(Box<BlockNode>),
    Extends(ExtendsNode),
    Include(Box<IncludeNode>),
    If(Box<IfNode>),
    For(Box<ForNode>),
    With(Box<WithNode>),
    Load(LoadNode),
    Static(StaticNode),
    Csrftoken(CsrftokenNode),
    CommentBlock(CommentBlockNode),
    Autoescape(Box<AutoescapeNode>),
    Blocktranslate(Box<BlocktranslateNode>),
    Trans(TransNode),
    Language(Box<LanguageNode>),
    Verbatim(VerbatimNode),
    TemplateTag(TemplateTagNode),
    Ifchanged(Box<IfchangedNode>),
    FilterBlock(Box<FilterBlockNode>),
    Now(NowNode),
    Regroup(Box<RegroupNode>),
    Cycle(Box<CycleNode>),
    Firstof(FirstofNode),
    Widthratio(Box<WidthratioNode>),
    JsonScript(Box<JsonScriptNode>),
    CaptureAs(Box<CaptureAsNode>),
    Cache(Box<CacheNode>),
    Localize(Box<LocalizeNode>),
    Localtime(Box<LocaltimeNode>),
    Spaceless(SpacelessNode),
    Timezone(Box<TimezoneNode>),
    Utc(UtcNode),
    Debug(DebugNode),
    GetStaticPrefix(GetStaticPrefixNode),
    GetMediaPrefix(GetMediaPrefixNode),
    Resetcycle(ResetcycleNode),
    Lorem(Box<LoremNode>),
    Querystring(Box<QuerystringNode>),
    Translate(Box<TranslateNode>),
    Plural(PluralNode),
}

#[derive(Debug, Clone)]
pub struct TextNode {
    pub content: String,
}

#[derive(Debug, Clone)]
pub struct VariableNode {
    pub raw: String,
    pub expression: String,
    pub filters: Vec<Filter>,
}

#[derive(Debug)]
pub struct BlockNode {
    pub raw: String,
    pub name: String,
    pub content: Vec<AstNode>,
    pub has_super_reference: bool,
}

#[derive(Debug, Clone)]
pub struct ExtendsNode {
    pub raw: String,
    pub parent_path: String,
}

#[derive(Debug, Clone)]
pub struct IncludeNode {
    pub raw: String,
    pub path: String,
    pub with_variables: Vec<Binding>,
    pub only: bool,
}

#[derive(Debug)]
pub struct IfNode {
    pub raw: String,
    pub condition: String,
    pub true_branch: Vec<AstNode>,
    pub elif_branches: Vec<ElifBranch>,
    pub else_branch: Option<Vec<AstNode>>,
}

#[derive(Debug)]
pub struct ForNode {
    pub raw: String,
    pub variable: String,
    pub iterable: String,
    pub body: Vec<AstNode>,
    pub empty_branch: Option<Vec<AstNode>>,
}

#[derive(Debug)]
pub struct WithNode {
    pub raw: String,
    pub bindings: Vec<Binding>,
    pub body: Vec<AstNode>,
}

#[derive(Debug, Clone)]
pub struct LoadNode {
    pub raw: String,
    pub libraries: Vec<String>,
}

#[derive(Debug, Clone)]
pub struct StaticNode {
    pub raw: String,
    pub path: String,
}

#[derive(Debug, Clone)]
pub struct CsrftokenNode {
    pub raw: String,
}

#[derive(Debug, Clone)]
pub struct CommentBlockNode {
    pub raw: String,
    pub content: String,
}

#[derive(Debug)]
pub struct AutoescapeNode {
    pub raw: String,
    pub value: String,
    pub body: Vec<AstNode>,
}

#[derive(Debug)]
pub struct BlocktranslateNode {
    pub raw: String,
    pub body: Vec<AstNode>,
    pub modifiers: Vec<String>,
}

#[derive(Debug, Clone)]
pub struct TransNode {
    pub raw: String,
    pub message: String,
}

#[derive(Debug)]
pub struct LanguageNode {
    pub raw: String,
    pub language: String,
    pub body: Vec<AstNode>,
}

#[derive(Debug, Clone)]
pub struct VerbatimNode {
    pub raw: String,
    pub content: String,
}

#[derive(Debug, Clone)]
pub struct TemplateTagNode {
    pub raw: String,
    pub format: String,
}

#[derive(Debug)]
pub struct IfchangedNode {
    pub raw: String,
    pub condition: Option<String>,
    pub true_branch: Vec<AstNode>,
    pub else_branch: Option<Vec<AstNode>>,
}

#[derive(Debug)]
pub struct FilterBlockNode {
    pub raw: String,
    pub filter: String,
    pub body: Vec<AstNode>,
}

#[derive(Debug, Clone)]
pub struct NowNode {
    pub raw: String,
    pub format: String,
}

#[derive(Debug, Clone)]
pub struct RegroupNode {
    pub raw: String,
    pub list: String,
    pub field: String,
    pub as_variable: String,
}

#[derive(Debug, Clone)]
pub struct CycleNode {
    pub raw: String,
    pub values: Vec<String>,
    pub as_variable: Option<String>,
    pub output: bool,
}

#[derive(Debug, Clone)]
pub struct FirstofNode {
    pub raw: String,
    pub variables: Vec<String>,
}

#[derive(Debug, Clone)]
pub struct WidthratioNode {
    pub raw: String,
    pub value: String,
    pub maximum: String,
    pub divisor: String,
}

#[derive(Debug, Clone)]
pub struct JsonScriptNode {
    pub raw: String,
    pub variable: String,
    pub id: String,
}

#[derive(Debug, Clone)]
pub struct CaptureAsNode {
    pub raw: String,
    pub tag: String,
    pub content: String,
    pub variable_name: String,
}

#[derive(Debug)]
pub struct CacheNode {
    pub raw: String,
    pub timeout: String,
    pub name: String,
    pub body: Vec<AstNode>,
}

#[derive(Debug)]
pub struct LocalizeNode {
    pub raw: String,
    pub value: String,
    pub body: Vec<AstNode>,
}

#[derive(Debug)]
pub struct LocaltimeNode {
    pub raw: String,
    pub value: String,
    pub body: Vec<AstNode>,
}

#[derive(Debug)]
pub struct SpacelessNode {
    pub raw: String,
    pub body: Vec<AstNode>,
}

#[derive(Debug)]
pub struct TimezoneNode {
    pub raw: String,
    pub timezone: String,
    pub body: Vec<AstNode>,
}

#[derive(Debug)]
pub struct UtcNode {
    pub raw: String,
    pub body: Vec<AstNode>,
}

#[derive(Debug, Clone)]
pub struct DebugNode {
    pub raw: String,
}

#[derive(Debug, Clone)]
pub struct GetStaticPrefixNode {
    pub raw: String,
    pub variable_name: Option<String>,
}

#[derive(Debug, Clone)]
pub struct GetMediaPrefixNode {
    pub raw: String,
    pub variable_name: Option<String>,
}

#[derive(Debug, Clone)]
pub struct ResetcycleNode {
    pub raw: String,
    pub name: String,
}

#[derive(Debug, Clone)]
pub struct LoremNode {
    pub raw: String,
    pub count: String,
    pub method: String,
    pub random: bool,
}

#[derive(Debug, Clone)]
pub struct QuerystringNode {
    pub raw: String,
    pub parameters: Vec<Binding>,
    pub variable_name: Option<String>,
}

#[derive(Debug, Clone)]
pub struct TranslateNode {
    pub raw: String,
    pub message: String,
    pub variable_name: Option<String>,
    pub noop: bool,
}

#[derive(Debug, Clone)]
pub struct PluralNode {
    pub raw: String,
    pub content: String,
}

/// The view of a binding.
pub struct BindingModel {
    pub name: Seq<char>,
    pub value: Seq<char>,
}

/// The view of an elif branch.
pub struct ElifModel {
    pub condition: Seq<char>,
    pub body: Seq<NodeModel>,
}

/// The view of an [`AstNode`]: the same tree over character sequences.
pub enum NodeModel {
    Text { content: Seq<char> },
    Variable { raw: Seq<char>, expression: Seq<char>, filters: Seq<FilterModel> },
    Block { raw: Seq<char>, name: Seq<char>, content: Seq<NodeModel>, has_super_reference: bool },
    Extends { raw: Seq<char>, parent_path: Seq<char> },
    Include { raw: Seq<char>, path: Seq<char>, with_variables: Seq<BindingModel>, only: bool },
    If { raw: Seq<char>, condition: Seq<char>, true_branch: Seq<NodeModel>, elif_branches: Seq<ElifModel>, else_branch: Option<Seq<NodeModel>> },
    For { raw: Seq<char>, variable: Seq<char>, iterable: Seq<char>, body: Seq<NodeModel>, empty_branch: Option<Seq<NodeModel>> },
    With { raw: Seq<char>, bindings: Seq<BindingModel>, body: Seq<NodeModel> },
    Load { raw: Seq<char>, libraries: Seq<Seq<char>> },
    Static { raw: Seq<char>, path: Seq<char> },
    Csrftoken { raw: Seq<char> },
    CommentBlock { raw: Seq<char>, content: Seq<char> },
    Autoescape { raw: Seq<char>, value: Seq<char>, body: Seq<NodeModel> },
    Blocktranslate { raw: Seq<char>, body: Seq<NodeModel>, modifiers: Seq<Seq<char>> },
    Trans { raw: Seq<char>, message: Seq<char> },
    Language { raw: Seq<char>, language: Seq<char>, body: Seq<NodeModel> },
    Verbatim { raw: Seq<char>, content: Seq<char> },
    TemplateTag { raw: Seq<char>, format: Seq<char> },
    Ifchanged { raw: Seq<char>, condition: Option<Seq<char>>, true_branch: Seq<NodeModel>, else_branch: Option<Seq<NodeModel>> },
    FilterBlock { raw: Seq<char>, filter: Seq<char>, body: Seq<NodeModel> },
    Now { raw: Seq<char>, format: Seq<char> },
    Regroup { raw: Seq<char>, list: Seq<char>, field: Seq<char>, as_variable: Seq<char> },
    Cycle { raw: Seq<char>, values: Seq<Seq<char>>, as_variable: Option<Seq<char>>, output: bool },
    Firstof { raw: Seq<char>, variables: Seq<Seq<char>> },
    Widthratio { raw: Seq<char>, value: Seq<char>, maximum: Seq<char>, divisor: Seq<char> },
    JsonScript { raw: Seq<char>, variable: Seq<char>, id: Seq<char> },
    CaptureAs { raw: Seq<char>, tag: Seq<char>, content: Seq<char>, variable_name: Seq<char> },
    Cache { raw: Seq<char>, timeout: Seq<char>, name: Seq<char>, body: Seq<NodeModel> },
    Localize { raw: Seq<char>, value: Seq<char>, body: Seq<NodeModel> },
    Localtime { raw: Seq<char>, value: Seq<char>, body: Seq<NodeModel> },
    Spaceless { raw: Seq<char>, body: Seq<NodeModel> },
    Timezone { raw: Seq<char>, timezone: Seq<char>, body: Seq<NodeModel> },
    Utc { raw: Seq<char>, body: Seq<NodeModel> },
    Debug { raw: Seq<char> },
    GetStaticPrefix { raw: Seq<char>, variable_name: Option<Seq<char>> },
    GetMediaPrefix { raw: Seq<char>, variable_name: Option<Seq<char>> },
    Resetcycle { raw: Seq<char>, name: Seq<char> },
    Lorem { raw: Seq<char>, count: Seq<char>, method: Seq<char>, random: bool },
    Querystring { raw: Seq<char>, parameters: Seq<BindingModel>, variable_name: Option<Seq<char>> },
    Translate { raw: Seq<char>, message: Seq<char>, variable_name: Option<Seq<char>>, noop: bool },
    Plural { raw: Seq<char>, content: Seq<char> },
}

pub open spec fn ast_filter_view(f: Filter) -> FilterModel {
    FilterModel { name: f.name@, arguments: strings_view(f.arguments@) }
}

pub open spec fn ast_filters_view(v: Seq<Filter>) -> Seq<FilterModel> {
    v.map_values(|f: Filter| ast_filter_view(f))
}

pub open spec fn binding_view(b: Binding) -> BindingModel {
    BindingModel { name: b.name@, value: b.value@ }
}

pub open spec fn bindings_view(v: Seq<Binding>) -> Seq<BindingModel> {
    v.map_values(|b: Binding| binding_view(b))
}

pub open spec fn opt_string_view(o: Option<String>) -> Option<Seq<char>> {
    match o {
        Some(s) => Some(s@),
        None => None,
    }
}

pub open spec fn nodes_view(v: Seq<AstNode>) -> Seq<NodeModel>
    decreases v, 0nat,
{
    if v.len() == 0 {
        seq![]
    } else {
        nodes_view(v.drop_last()).push(node_view(v.last()))
    }
}

pub open spec fn opt_nodes_view(o: Option<Vec<AstNode>>) -> Option<Seq<NodeModel>>
    decreases o, 0nat,
{
    match o {
        Some(v) => Some(nodes_view(v@)),
        None => None,
    }
}

pub open spec fn elifs_view(v: Seq<ElifBranch>) -> Seq<ElifModel>
    decreases v, 0nat,
{
    if v.len() == 0 {
        seq![]
    } else {
        elifs_view(v.drop_last()).push(
            ElifModel { condition: v.last().condition@, body: nodes_view(v.last().body@) },
        )
    }
}

pub open spec fn node_view(n: AstNode) -> NodeModel
    decreases n, 1nat,
{
    match n {
        AstNode::Text(x) => NodeModel::Text { content: x.content@ },
        AstNode::Variable(x) => NodeModel::Variable { raw: x.raw@, expression: x.expression@, filters: ast_filters_view(x.filters@) },
        AstNode::Block(x) => NodeModel::Block { raw: x.raw@, name: x.name@, content: nodes_view(x.content@), has_super_reference: x.has_super_reference },
        AstNode::Extends(x) => NodeModel::Extends { raw: x.raw@, parent_path: x.parent_path@ },
        AstNode::Include(x) => NodeModel::Include { raw: x.raw@, path: x.path@, with_variables: bindings_view(x.with_variables@), only: x.only },
        AstNode::If(x) => NodeModel::If { raw: x.raw@, condition: x.condition@, true_branch: nodes_view(x.true_branch@), elif_branches: elifs_view(x.elif_branches@), else_branch: opt_nodes_view(x.else_branch) },
        AstNode::For(x) => NodeModel::For { raw: x.raw@, variable: x.variable@, iterable: x.iterable@, body: nodes_view(x.body@), empty_branch: opt_nodes_view(x.empty_branch) },
        AstNode::With(x) => NodeModel::With { raw: x.raw@, bindings: bindings_view(x.bindings@), body: nodes_view(x.body@) },
        AstNode::Load(x) => NodeModel::Load { raw: x.raw@, libraries: strings_view(x.libraries@) },
        AstNode::Static(x) => NodeModel::Static { raw: x.raw@, path: x.path@ },
        AstNode::Csrftoken(x) => NodeModel::Csrftoken { raw: x.raw@ },
        AstNode::CommentBlock(x) => NodeModel::CommentBlock { raw: x.raw@, content: x.content@ },
        AstNode::Autoescape(x) => NodeModel::Autoescape { raw: x.raw@, value: x.value@, body: nodes_view(x.body@) },
        AstNode::Blocktranslate(x) => NodeModel::Blocktranslate { raw: x.raw@, body: nodes_view(x.body@), modifiers: strings_view(x.modifiers@) },
        AstNode::Trans(x) => NodeModel::Trans { raw: x.raw@, message: x.message@ },
        AstNode::Language(x) => NodeModel::Language { raw: x.raw@, language: x.language@, body: nodes_view(x.body@) },
        AstNode::Verbatim(x) => NodeModel::Verbatim { raw: x.raw@, content: x.content@ },
        AstNode::TemplateTag(x) => NodeModel::TemplateTag { raw: x.raw@, format: x.format@ },
        AstNode::Ifchanged(x) => NodeModel::Ifchanged { raw: x.raw@, condition: opt_string_view(x.condition), true_branch: nodes_view(x.true_branch@), else_branch: opt_nodes_view(x.else_branch) },
        AstNode::FilterBlock(x) => NodeModel::FilterBlock { raw: x.raw@, filter: x.filter@, body: nodes_view(x.body@) },
        AstNode::Now(x) => NodeModel::Now { raw: x.raw@, format: x.format@ },
        AstNode::Regroup(x) => NodeModel::Regroup { raw: x.raw@, list: x.list@, field: x.field@, as_variable: x.as_variable@ },
        AstNode::Cycle(x) => NodeModel::Cycle { raw: x.raw@, values: strings_view(x.values@), as_variable: opt_string_view(x.as_variable), output: x.output },
        AstNode::Firstof(x) => NodeModel::Firstof { raw: x.raw@, variables: strings_view(x.variables@) },
        AstNode::Widthratio(x) => NodeModel::Widthratio { raw: x.raw@, value: x.value@, maximum: x.maximum@, divisor: x.divisor@ },
        AstNode::JsonScript(x) => NodeModel::JsonScript { raw: x.raw@, variable: x.variable@, id: x.id@ },
        AstNode::CaptureAs(x) => NodeModel::CaptureAs { raw: x.raw@, tag: x.tag@, content: x.content@, variable_name: x.variable_name@ },
        AstNode::Cache(x) => NodeModel::Cache { raw: x.raw@, timeout: x.timeout@, name: x.name@, body: nodes_view(x.body@) },
        AstNode::Localize(x) => NodeModel::Localize { raw: x.raw@, value: x.value@, body: nodes_view(x.body@) },
        AstNode::Localtime(x) => NodeModel::Localtime { raw: x.raw@, value: x.value@, body: nodes_view(x.body@) },
        AstNode::Spaceless(x) => NodeModel::Spaceless { raw: x.raw@, body: nodes_view(x.body@) },
        AstNode::Timezone(x) => NodeModel::Timezone { raw: x.raw@, timezone: x.timezone@, body: nodes_view(x.body@) },
        AstNode::Utc(x) => NodeModel::Utc { raw: x.raw@, body: nodes_view(x.body@) },
        AstNode::Debug(x) => NodeModel::Debug { raw: x.raw@ },
        AstNode::GetStaticPrefix(x) => NodeModel::GetStaticPrefix { raw: x.raw@, variable_name: opt_string_view(x.variable_name) },
        AstNode::GetMediaPrefix(x) => NodeModel::GetMediaPrefix { raw: x.raw@, variable_name: opt_string_view(x.variable_name) },
        AstNode::Resetcycle(x) => NodeModel::Resetcycle { raw: x.raw@, name: x.name@ },
        AstNode::Lorem(x) => NodeModel::Lorem { raw: x.raw@, count: x.count@, method: x.method@, random: x.random },
        AstNode::Querystring(x) => NodeModel::Querystring { raw: x.raw@, parameters: bindings_view(x.parameters@), variable_name: opt_string_view(x.variable_name) },
        AstNode::Translate(x) => NodeModel::Translate { raw: x.raw@, message: x.message@, variable_name: opt_string_view(x.variable_name), noop: x.noop },
        AstNode::Plural(x) => NodeModel::Plural { raw: x.raw@, content: x.content@ },
    }
}

impl View for AstNode {
    type V = NodeModel;

    open spec fn view(&self) -> NodeModel {
        node_view(*self)
    }
}

pub open spec fn opt_list(o: Option<Seq<NodeModel>>) -> Seq<Seq<NodeModel>> {
    match o {
        Some(b) => seq![b],
        None => seq![],
    }
}

/// The direct child node lists of a node, in order.
pub open spec fn node_children(n: NodeModel) -> Seq<Seq<NodeModel>> {
    match n {
        NodeModel::Block { content, .. } => seq![content],
        NodeModel::If { true_branch, elif_branches, else_branch, .. } => seq![true_branch]
            + elif_branches.map_values(|e: ElifModel| e.body) + opt_list(else_branch),
        NodeModel::For { body, empty_branch, .. } => seq![body] + opt_list(empty_branch),
        NodeModel::With { body, .. } => seq![body],
        NodeModel::Autoescape { body, .. } => seq![body],
        NodeModel::Blocktranslate { body, .. } => seq![body],
        NodeModel::Language { body, .. } => seq![body],
        NodeModel::FilterBlock { body, .. } => seq![body],
        NodeModel::Cache { body, .. } => seq![body],
        NodeModel::Localize { body, .. } => seq![body],
        NodeModel::Localtime { body, .. } => seq![body],
        NodeModel::Spaceless { body, .. } => seq![body],
        NodeModel::Timezone { body, .. } => seq![body],
        NodeModel::Utc { body, .. } => seq![body],
        NodeModel::Ifchanged { true_branch, else_branch, .. } => seq![true_branch] + opt_list(
            else_branch,
        ),
        _ => seq![],
    }
}

/// The node lists of a stack of slices.
pub open spec fn slices_view(v: Seq<&[AstNode]>) -> Seq<Seq<NodeModel>> {
    v.map_values(|s: &[AstNode]| nodes_view(s@))
}

fn push_list<'a>(stack: &mut Vec<&'a [AstNode]>, list: &'a Vec<AstNode>)
    ensures
        slices_view(final(stack)@) == slices_view(old(stack)@).push(nodes_view(list@)),
{
    let ghost before = slices_view(stack@);
    let s = list.as_slice();
    stack.push(s);
    assert(slices_view(stack@) =~= before.push(nodes_view(list@)));
}

impl AstNode {
    /// Pushes the node's direct child lists onto a traversal stack, in
    /// order.
    pub fn push_child_slices<'a>(&'a self, stack: &mut Vec<&'a [AstNode]>)
        ensures
            slices_view(final(stack)@) == slices_view(old(stack)@) + node_children(node_view(*self)),
    {
        let ghost before = slices_view(stack@);
        match self {
            AstNode::Block(block) => push_list(stack, &block.content),
            AstNode::If(if_node) => {
                push_list(stack, &if_node.true_branch);
                let ghost es = if_node.elif_branches@;
                let ghost bodies = elifs_view(es).map_values(|e: ElifModel| e.body);
                let mut k: usize = 0;
                proof {
                    lemma_elifs_view_len(es);
                }
                assert(bodies.take(0) =~= Seq::<Seq<NodeModel>>::empty());
                while k < if_node.elif_branches.len()
                    invariant
                        k <= es.len(),
                        es == if_node.elif_branches@,
                        bodies == elifs_view(es).map_values(|e: ElifModel| e.body),
                        bodies.len() == es.len(),
                        slices_view(stack@) == before + seq![nodes_view(if_node.true_branch@)]
                            + bodies.take(k as int),
                    decreases es.len() - k,
                {
                    proof {
                        lemma_elifs_view_index(es, k as int);
                    }
                    push_list(stack, &if_node.elif_branches[k].body);
                    k += 1;
                    assert(bodies.take(k as int) =~= bodies.take(k - 1).push(bodies[k - 1]));
                }
                assert(bodies.take(k as int) =~= bodies);
                match &if_node.else_branch {
                    Some(b) => push_list(stack, b),
                    None => {},
                }
            },
            AstNode::For(for_node) => {
                push_list(stack, &for_node.body);
                match &for_node.empty_branch {
                    Some(b) => push_list(stack, b),
                    None => {},
                }
            },
            AstNode::With(x) => push_list(stack, &x.body),
            AstNode::Autoescape(x) => push_list(stack, &x.body),
            AstNode::Blocktranslate(x) => push_list(stack, &x.body),
            AstNode::Language(x) => push_list(stack, &x.body),
            AstNode::FilterBlock(x) => push_list(stack, &x.body),
            AstNode::Cache(x) => push_list(stack, &x.body),
            AstNode::Localize(x) => push_list(stack, &x.body),
            AstNode::Localtime(x) => push_list(stack, &x.body),
            AstNode::Spaceless(x) => push_list(stack, &x.body),
            AstNode::Timezone(x) => push_list(stack, &x.body),
            AstNode::Utc(x) => push_list(stack, &x.body),
            AstNode::Ifchanged(x) => {
                push_list(stack, &x.true_branch);
                match &x.else_branch {
                    Some(b) => push_list(stack, b),
                    None => {},
                }
            },
            _ => {},
        }
        assert(slices_view(stack@) =~= before + node_children(node_view(*self)));
    }
}

pub proof fn lemma_elifs_view_index(es: Seq<ElifBranch>, k: int)
    requires
        0 <= k < es.len(),
    ensures
        elifs_view(es).len() == es.len(),
        elifs_view(es)[k] == (ElifModel { condition: es[k].condition@, body: nodes_view(es[k].body@) }),
    decreases es.len(),
{
    if k < es.len() - 1 {
        lemma_elifs_view_index(es.drop_last(), k);
    }
    lemma_elifs_view_len(es);
}

pub proof fn lemma_elifs_view_len(es: Seq<ElifBranch>)
    ensures
        elifs_view(es).len() == es.len(),
    decreases es.len(),
{
    if es.len() > 0 {
        lemma_elifs_view_len(es.drop_last());
    }
}


pub proof fn lemma_elifs_view_push_copy(v: Seq<ElifBranch>, e: ElifBranch)
    ensures
        elifs_view(v.push(e)) == elifs_view(v).push(
            ElifModel { condition: e.condition@, body: nodes_view(e.body@) },
        ),
{
    assert(v.push(e).drop_last() =~= v);
}

pub fn clone_strings(v: &Vec<String>) -> (r: Vec<String>)
    ensures
        strings_view(r@) == strings_view(v@),
{
    let mut out: Vec<String> = Vec::new();
    let mut k: usize = 0;
    while k < v.len()
        invariant
            k <= v.len(),
            strings_view(out@) == strings_view(v@).take(k as int),
        decreases v.len() - k,
    {
        let t = v[k].clone();
        let ghost before = strings_view(out@);
        out.push(t);
        assert(strings_view(out@) =~= before.push(t@));
        k += 1;
        assert(strings_view(out@) =~= strings_view(v@).take(k as int));
    }
    assert(strings_view(v@).take(k as int) =~= strings_view(v@));
    out
}

pub fn clone_opt_string(o: &Option<String>) -> (r: Option<String>)
    ensures
        opt_string_view(r) == opt_string_view(*o),
{
    match o {
        Some(s) => Some(s.clone()),
        None => None,
    }
}

pub fn clone_bindings(v: &Vec<Binding>) -> (r: Vec<Binding>)
    ensures
        bindings_view(r@) == bindings_view(v@),
{
    let mut out: Vec<Binding> = Vec::new();
    let mut k: usize = 0;
    while k < v.len()
        invariant
            k <= v.len(),
            bindings_view(out@) == bindings_view(v@).take(k as int),
        decreases v.len() - k,
    {
        let b = Binding { name: v[k].name.clone(), value: v[k].value.clone() };
        let ghost before = bindings_view(out@);
        out.push(b);
        assert(bindings_view(out@) =~= before.push(binding_view(b)));
        k += 1;
        assert(bindings_view(out@) =~= bindings_view(v@).take(k as int));
    }
    assert(bindings_view(v@).take(k as int) =~= bindings_view(v@));
    out
}

pub fn clone_filters(v: &Vec<Filter>) -> (r: Vec<Filter>)
    ensures
        ast_filters_view(r@) == ast_filters_view(v@),
{
    let mut out: Vec<Filter> = Vec::new();
    let mut k: usize = 0;
    while k < v.len()
        invariant
            k <= v.len(),
            ast_filters_view(out@) == ast_filters_view(v@).take(k as int),
        decreases v.len() - k,
    {
        let f = Filter { name: v[k].name.clone(), arguments: clone_strings(&v[k].arguments) };
        let ghost before = ast_filters_view(out@);
        out.push(f);
        assert(ast_filters_view(out@) =~= before.push(ast_filter_view(f)));
        k += 1;
        assert(ast_filters_view(out@) =~= ast_filters_view(v@).take(k as int));
    }
    assert(ast_filters_view(v@).take(k as int) =~= ast_filters_view(v@));
    out
}

/// A copy of the node list `v`.
pub fn clone_nodes(v: &[AstNode]) -> (r: Vec<AstNode>)
    ensures
        nodes_view(r@) == nodes_view(v@),
    decreases v@, 0nat,
{
    let mut out: Vec<AstNode> = Vec::new();
    let mut k: usize = 0;
    assert(nodes_view(out@) =~= nodes_view(v@.take(0)));
    while k < v.len()
        invariant
            k <= v@.len(),
            nodes_view(out@) == nodes_view(v@.take(k as int)),
        decreases v.len() - k,
    {
        let n = clone_node(&v[k]);
        proof {
            assert(out@.push(n).drop_last() =~= out@);
            assert(v@.take(k + 1).drop_last() =~= v@.take(k as int));
        }
        out.push(n);
        k += 1;
    }
    assert(v@.take(k as int) =~= v@);
    out
}


fn clone_if(x: &IfNode) -> (r: Box<IfNode>)
    ensures
        node_view(AstNode::If(r)) == node_view(AstNode::If(Box::new(*x))),
    decreases *x, 0nat,
{
        let mut elifs: Vec<ElifBranch> = Vec::new();
        let mut k: usize = 0;
        assert(elifs_view(elifs@) =~= elifs_view(x.elif_branches@.take(0)));
        while k < x.elif_branches.len()
            invariant
                k <= x.elif_branches@.len(),
                elifs_view(elifs@) == elifs_view(x.elif_branches@.take(k as int)),
            decreases x.elif_branches.len() - k,
        {
            let e = ElifBranch {
                condition: x.elif_branches[k].condition.clone(),
                body: clone_nodes(x.elif_branches[k].body.as_slice()),
            };
            proof {
                lemma_elifs_view_push_copy(elifs@, e);
                assert(x.elif_branches@.take(k + 1).drop_last() =~= x.elif_branches@.take(k as int));
            }
            elifs.push(e);
            k += 1;
        }
        assert(x.elif_branches@.take(k as int) =~= x.elif_branches@);
        Box::new(IfNode { raw: x.raw.clone(), condition: x.condition.clone(), true_branch: clone_nodes(x.true_branch.as_slice()), elif_branches: elifs, else_branch: match &x.else_branch { Some(b) => Some(clone_nodes(b.as_slice())), None => None } })
}

/// A copy of the node `n`.
pub fn clone_node(n: &AstNode) -> (r: AstNode)
    ensures
        node_view(r) == node_view(*n),
    decreases *n, 1nat,
{
    match n {
        AstNode::Text(x) => {
            AstNode::Text(TextNode { content: x.content.clone() })
        },
        AstNode::Variable(x) => {
            AstNode::Variable(Box::new(VariableNode { raw: x.raw.clone(), expression: x.expression.clone(), filters: clone_filters(&x.filters) }))
        },
        AstNode::Block(x) => {
            AstNode::Block(Box::new(BlockNode { raw: x.raw.clone(), name: x.name.clone(), content: clone_nodes(x.content.as_slice()), has_super_reference: x.has_super_reference }))
        },
        AstNode::Extends(x) => {
            AstNode::Extends(ExtendsNode { raw: x.raw.clone(), parent_path: x.parent_path.clone() })
        },
        AstNode::Include(x) => {
            AstNode::Include(Box::new(IncludeNode { raw: x.raw.clone(), path: x.path.clone(), with_variables: clone_bindings(&x.with_variables), only: x.only }))
        },
        AstNode::If(x) => AstNode::If(clone_if(x)),
        AstNode::For(x) => {
            AstNode::For(Box::new(ForNode { raw: x.raw.clone(), variable: x.variable.clone(), iterable: x.iterable.clone(), body: clone_nodes(x.body.as_slice()), empty_branch: match &x.empty_branch { Some(b) => Some(clone_nodes(b.as_slice())), None => None } }))
        },
        AstNode::With(x) => {
            AstNode::With(Box::new(WithNode { raw: x.raw.clone(), bindings: clone_bindings(&x.bindings), body: clone_nodes(x.body.as_slice()) }))
        },
        AstNode::Load(x) => {
            AstNode::Load(LoadNode { raw: x.raw.clone(), libraries: clone_strings(&x.libraries) })
        },
        AstNode::Static(x) => {
            AstNode::Static(StaticNode { raw: x.raw.clone(), path: x.path.clone() })
        },
        AstNode::Csrftoken(x) => {
            AstNode::Csrftoken(CsrftokenNode { raw: x.raw.clone() })
        },
        AstNode::CommentBlock(x) => {
            AstNode::CommentBlock(CommentBlockNode { raw: x.raw.clone(), content: x.content.clone() })
        },
        AstNode::Autoescape(x) => {
            AstNode::Autoescape(Box::new(AutoescapeNode { raw: x.raw.clone(), value: x.value.clone(), body: clone_nodes(x.body.as_slice()) }))
        },
        AstNode::Blocktranslate(x) => {
            AstNode::Blocktranslate(Box::new(BlocktranslateNode { raw: x.raw.clone(), body: clone_nodes(x.body.as_slice()), modifiers: clone_strings(&x.modifiers) }))
        },
        AstNode::Trans(x) => {
            AstNode::Trans(TransNode { raw: x.raw.clone(), message: x.message.clone() })
        },
        AstNode::Language(x) => {
            AstNode::Language(Box::new(LanguageNode { raw: x.raw.clone(), language: x.language.clone(), body: clone_nodes(x.body.as_slice()) }))
        },
        AstNode::Verbatim(x) => {
            AstNode::Verbatim(VerbatimNode { raw: x.raw.clone(), content: x.content.clone() })
        },
        AstNode::TemplateTag(x) => {
            AstNode::TemplateTag(TemplateTagNode { raw: x.raw.clone(), format: x.format.clone() })
        },
        AstNode::Ifchanged(x) => {
            AstNode::Ifchanged(Box::new(IfchangedNode { raw: x.raw.clone(), condition: clone_opt_string(&x.condition), true_branch: clone_nodes(x.true_branch.as_slice()), else_branch: match &x.else_branch { Some(b) => Some(clone_nodes(b.as_slice())), None => None } }))
        },
        AstNode::FilterBlock(x) => {
            AstNode::FilterBlock(Box::new(FilterBlockNode { raw: x.raw.clone(), filter: x.filter.clone(), body: clone_nodes(x.body.as_slice()) }))
        },
        AstNode::Now(x) => {
            AstNode::Now(NowNode { raw: x.raw.clone(), format: x.format.clone() })
        },
        AstNode::Regroup(x) => {
            AstNode::Regroup(Box::new(RegroupNode { raw: x.raw.clone(), list: x.list.clone(), field: x.field.clone(), as_variable: x.as_variable.clone() }))
        },
        AstNode::Cycle(x) => {
            AstNode::Cycle(Box::new(CycleNode { raw: x.raw.clone(), values: clone_strings(&x.values), as_variable: clone_opt_string(&x.as_variable), output: x.output }))
        },
        AstNode::Firstof(x) => {
            AstNode::Firstof(FirstofNode { raw: x.raw.clone(), variables: clone_strings(&x.variables) })
        },
        AstNode::Widthratio(x) => {
            AstNode::Widthratio(Box::new(WidthratioNode { raw: x.raw.clone(), value: x.value.clone(), maximum: x.maximum.clone(), divisor: x.divisor.clone() }))
        },
        AstNode::JsonScript(x) => {
            AstNode::JsonScript(Box::new(JsonScriptNode { raw: x.raw.clone(), variable: x.variable.clone(), id: x.id.clone() }))
        },
        AstNode::CaptureAs(x) => {
            AstNode::CaptureAs(Box::new(CaptureAsNode { raw: x.raw.clone(), tag: x.tag.clone(), content: x.content.clone(), variable_name: x.variable_name.clone() }))
        },
        AstNode::Cache(x) => {
            AstNode::Cache(Box::new(CacheNode { raw: x.raw.clone(), timeout: x.timeout.clone(), name: x.name.clone(), body: clone_nodes(x.body.as_slice()) }))
        },
        AstNode::Localize(x) => {
            AstNode::Localize(Box::new(LocalizeNode { raw: x.raw.clone(), value: x.value.clone(), body: clone_nodes(x.body.as_slice()) }))
        },
        AstNode::Localtime(x) => {
            AstNode::Localtime(Box::new(LocaltimeNode { raw: x.raw.clone(), value: x.value.clone(), body: clone_nodes(x.body.as_slice()) }))
        },
        AstNode::Spaceless(x) => {
            AstNode::Spaceless(SpacelessNode { raw: x.raw.clone(), body: clone_nodes(x.body.as_slice()) })
        },
        AstNode::Timezone(x) => {
            AstNode::Timezone(Box::new(TimezoneNode { raw: x.raw.clone(), timezone: x.timezone.clone(), body: clone_nodes(x.body.as_slice()) }))
        },
        AstNode::Utc(x) => {
            AstNode::Utc(UtcNode { raw: x.raw.clone(), body: clone_nodes(x.body.as_slice()) })
        },
        AstNode::Debug(x) => {
            AstNode::Debug(DebugNode { raw: x.raw.clone() })
        },
        AstNode::GetStaticPrefix(x) => {
            AstNode::GetStaticPrefix(GetStaticPrefixNode { raw: x.raw.clone(), variable_name: clone_opt_string(&x.variable_name) })
        },
        AstNode::GetMediaPrefix(x) => {
            AstNode::GetMediaPrefix(GetMediaPrefixNode { raw: x.raw.clone(), variable_name: clone_opt_string(&x.variable_name) })
        },
        AstNode::Resetcycle(x) => {
            AstNode::Resetcycle(ResetcycleNode { raw: x.raw.clone(), name: x.name.clone() })
        },
        AstNode::Lorem(x) => {
            AstNode::Lorem(Box::new(LoremNode { raw: x.raw.clone(), count: x.count.clone(), method: x.method.clone(), random: x.random }))
        },
        AstNode::Querystring(x) => {
            AstNode::Querystring(Box::new(QuerystringNode { raw: x.raw.clone(), parameters: clone_bindings(&x.parameters), variable_name: clone_opt_string(&x.variable_name) }))
        },
        AstNode::Translate(x) => {
            AstNode::Translate(Box::new(TranslateNode { raw: x.raw.clone(), message: x.message.clone(), variable_name: clone_opt_string(&x.variable_name), noop: x.noop }))
        },
        AstNode::Plural(x) => {
            AstNode::Plural(PluralNode { raw: x.raw.clone(), content: x.content.clone() })
        },
    }
}


/// An optional child list with its nodes left out.
pub open spec fn opt_shell(o: Option<Seq<NodeModel>>) -> Option<Seq<NodeModel>> {
    match o {
        Some(_) => Some(seq![]),
        None => None,
    }
}

/// The node with the nodes of its direct child lists left out: what stays
/// when only those lists are rewritten.
pub open spec fn shell(n: NodeModel) -> NodeModel {
    match n {
        NodeModel::Block { raw, name, has_super_reference, .. } => NodeModel::Block {
            raw,
            name,
            content: seq![],
            has_super_reference,
        },
        NodeModel::If { raw, condition, elif_branches, else_branch, .. } => NodeModel::If {
            raw,
            condition,
            true_branch: seq![],
            elif_branches: elif_branches.map_values(|e: ElifModel| ElifModel { condition: e.condition, body: seq![] }),
            else_branch: opt_shell(else_branch),
        },
        NodeModel::For { raw, variable, iterable, empty_branch, .. } => NodeModel::For {
            raw,
            variable,
            iterable,
            body: seq![],
            empty_branch: opt_shell(empty_branch),
        },
        NodeModel::With { raw, bindings, .. } => NodeModel::With { raw, bindings, body: seq![] },
        NodeModel::Autoescape { raw, value, .. } => NodeModel::Autoescape { raw, value, body: seq![] },
        NodeModel::Blocktranslate { raw, modifiers, .. } => NodeModel::Blocktranslate {
            raw,
            body: seq![],
            modifiers,
        },
        NodeModel::Language { raw, language, .. } => NodeModel::Language { raw, language, body: seq![] },
        NodeModel::Ifchanged { raw, condition, else_branch, .. } => NodeModel::Ifchanged {
            raw,
            condition,
            true_branch: seq![],
            else_branch: opt_shell(else_branch),
        },
        NodeModel::FilterBlock { raw, filter, .. } => NodeModel::FilterBlock { raw, filter, body: seq![] },
        NodeModel::Cache { raw, timeout, name, .. } => NodeModel::Cache { raw, timeout, name, body: seq![] },
        NodeModel::Localize { raw, value, .. } => NodeModel::Localize { raw, value, body: seq![] },
        NodeModel::Localtime { raw, value, .. } => NodeModel::Localtime { raw, value, body: seq![] },
        NodeModel::Spaceless { raw, .. } => NodeModel::Spaceless { raw, body: seq![] },
        NodeModel::Timezone { raw, timezone, .. } => NodeModel::Timezone { raw, timezone, body: seq![] },
        NodeModel::Utc { raw, .. } => NodeModel::Utc { raw, body: seq![] },
        _ => n,
    }
}

/// The elif branches with their bodies left out.
pub open spec fn elif_shells(es: Seq<ElifBranch>) -> Seq<ElifModel> {
    elifs_view(es).map_values(|e: ElifModel| ElifModel { condition: e.condition, body: seq![] })
}

/// The error a visit answered, `None` when it answered `Ok`.
pub open spec fn answer<E>(r: Result<(), E>) -> Option<E> {
    match r {
        Ok(_) => None,
        Err(e) => Some(e),
    }
}

/// One visit of a child list: the list as it was handed over, the list as
/// the visitor left it, and the error the visit answered, if any.
pub struct Visit<E> {
    pub handed: Seq<NodeModel>,
    pub left: Seq<NodeModel>,
    pub answer: Option<E>,
}

/// The lists that the visits `d` left behind, in order.
pub open spec fn lists_left<E>(d: Seq<Visit<E>>) -> Seq<Seq<NodeModel>> {
    d.map_values(|v: Visit<E>| v.left)
}

/// The visits `d` were handed the first of `lists`, in order, and each of
/// them answered `Ok`.
pub open spec fn walked_ok<E>(d: Seq<Visit<E>>, lists: Seq<Seq<NodeModel>>) -> bool {
    &&& d.len() <= lists.len()
    &&& forall|i: int| 0 <= i < d.len() ==> #[trigger] d[i].handed == lists[i] && d[i].answer is None
}

/// The visits `d` are a walk over `lists` that ended with `r`: on `Ok`,
/// every list was handed over and every visit answered `Ok`; on an error,
/// the walk stopped at the first visit that answered it.
pub open spec fn walked<E>(d: Seq<Visit<E>>, lists: Seq<Seq<NodeModel>>, r: Result<(), E>) -> bool {
    match r {
        Ok(_) => d.len() == lists.len() && walked_ok(d, lists),
        Err(e) => {
            &&& 0 < d.len() <= lists.len()
            &&& walked_ok(d.drop_last(), lists)
            &&& d.last().handed == lists[d.len() - 1]
            &&& d.last().answer == Some(e)
        },
    }
}

/// Something that is handed lists of child nodes, one at a time, and may
/// rewrite them.
pub trait ChildVisitor<E> {
    /// The visits this visitor has made so far, in order.
    spec fn seen(&self) -> Seq<Visit<E>>;

    fn visit(&mut self, children: &mut Vec<AstNode>) -> (r: Result<(), E>)
        ensures
            final(self).seen() == old(self).seen().push(
                Visit { handed: nodes_view(old(children)@), left: nodes_view(final(children)@), answer: answer(r) },
            ),
    ;
}

/// A visitor that keeps a copy of each list it is handed, leaves the list
/// as it was, and answers with an error (the limit) once it has been handed
/// more than `limit` lists.
pub struct ChildCollector {
    pub lists: Vec<Vec<AstNode>>,
    pub limit: usize,
}

impl ChildCollector {
    pub fn new(limit: usize) -> (r: Self)
        ensures
            r.lists@.len() == 0,
            r.limit == limit,
    {
        ChildCollector { lists: Vec::new(), limit }
    }
}

impl ChildVisitor<usize> for ChildCollector {
    open spec fn seen(&self) -> Seq<Visit<usize>> {
        Seq::new(
            self.lists@.len(),
            |i: int|
                Visit {
                    handed: nodes_view(self.lists@[i]@),
                    left: nodes_view(self.lists@[i]@),
                    answer: if i >= self.limit {
                        Some(self.limit)
                    } else {
                        None
                    },
                },
        )
    }

    fn visit(&mut self, children: &mut Vec<AstNode>) -> (r: Result<(), usize>)
        ensures
            final(self).limit == old(self).limit,
            final(children)@ == old(children)@,
            r is Ok <==> final(self).lists@.len() <= old(self).limit,
            r matches Err(l) ==> l == old(self).limit,
    {
        let ghost before = self.seen();
        let copy = clone_nodes(children.as_slice());
        self.lists.push(copy);
        let r = if self.lists.len() > self.limit {
            Err(self.limit)
        } else {
            Ok(())
        };
        assert(self.seen() =~= before.push(
            Visit { handed: nodes_view(children@), left: nodes_view(children@), answer: answer(r) },
        ));
        r
    }
}

impl AstNode {
    /// Hands each of the node's direct child lists, in order, to `visitor`,
    /// stopping at the first error, which it returns.  The node keeps
    /// everything but its child lists; each list that was handed over is
    /// the list the visitor left, and the lists after an error stay as
    /// they were.
    pub fn try_for_each_child_mut<E, V: ChildVisitor<E>>(&mut self, visitor: &mut V) -> (r: Result<(), E>)
        ensures
            shell(node_view(*final(self))) == shell(node_view(*old(self))),
            exists|d: Seq<Visit<E>>|
                {
                    &&& final(visitor).seen() == old(visitor).seen() + d
                    &&& #[trigger] walked(d, node_children(node_view(*old(self))), r)
                    &&& node_children(node_view(*final(self))) == lists_left(d) + node_children(
                        node_view(*old(self)),
                    ).skip(d.len() as int)
                },
    {
        let ghost s0 = visitor.seen();
        let ghost lists = node_children(node_view(*self));
        match self {
            AstNode::Block(x) => {
                let ghost b0 = nodes_view(x.content@);
                let res = visitor.visit(&mut x.content);
                proof {
                    let v = Visit { handed: b0, left: nodes_view(x.content@), answer: answer(res) };
                    lemma_walk_step(s0, seq![], lists, v);
                    assert(seq![v] =~= Seq::<Visit<E>>::empty().push(v));
                    assert(lists_left(seq![v]) + lists.skip(1) =~= seq![nodes_view(x.content@)]);
                    assert(walked(seq![v], lists, res));
                }
                res
            },
            AstNode::If(x) => {
                let ghost x0 = **x;
                let ghost es0 = elifs_view(x0.elif_branches@);
                proof {
                    lemma_elifs_view_len(x0.elif_branches@);
                }
                let first = visitor.visit(&mut x.true_branch);
                let ghost mut d: Seq<Visit<E>> = seq![
                    Visit { handed: nodes_view(x0.true_branch@), left: nodes_view(x.true_branch@), answer: answer(first) },
                ];
                proof {
                    lemma_walk_step(s0, seq![], lists, d[0]);
                    assert(d =~= Seq::<Visit<E>>::empty().push(d[0]));
                    lemma_if_children_true(x0, **x);
                    assert(lists_left(d) + lists.skip(1) =~= lists.update(0, d[0].left));
                }
                match first {
                    Ok(()) => {},
                    Err(e) => {
                        let res: Result<(), E> = Err(e);
                        proof {
                            assert(walked(d, lists, res));
                        }
                        return res;
                    },
                }
                let ghost shells = elif_shells(x.elif_branches@);
                let mut k: usize = 0;
                let mut failed: Option<E> = None;
                while k < x.elif_branches.len() && failed.is_none()
                    invariant
                        k <= x.elif_branches@.len(),
                        x.elif_branches@.len() == x0.elif_branches@.len(),
                        es0 == elifs_view(x0.elif_branches@),
                        es0.len() == x0.elif_branches@.len(),
                        lists == node_children(node_view(AstNode::If(Box::new(x0)))),
                        elif_shells(x.elif_branches@) == shells,
                        shells == elif_shells(x0.elif_branches@),
                        node_view(*old(self)) == node_view(AstNode::If(Box::new(x0))),
                        x.raw == x0.raw,
                        x.condition == x0.condition,
                        x.else_branch == x0.else_branch,
                        failed is None ==> forall|j: int|
                            k <= j < x.elif_branches@.len() ==> #[trigger] nodes_view(x.elif_branches@[j].body@)
                                == nodes_view(x0.elif_branches@[j].body@),
                        visitor.seen() == s0 + d,
                        node_children(node_view(AstNode::If(Box::new(**x)))) == lists_left(d) + lists.skip(
                            d.len() as int,
                        ),
                        failed is None ==> d.len() == 1 + k && walked_ok(d, lists),
                        failed matches Some(e) ==> k < x.elif_branches@.len() && walked(d, lists, Err(e)),
                    decreases x.elif_branches.len() - k + if failed is None {
                        1int
                    } else {
                        0int
                    },
                {
                    let ghost before = x.elif_branches@;
                    let ghost xb = **x;
                    proof {
                        lemma_elifs_view_index(x0.elif_branches@, k as int);
                        assert(lists[1 + k as int] == es0[k as int].body);
                    }
                    let res = visitor.visit(&mut x.elif_branches[k].body);
                    proof {
                        let v = Visit {
                            handed: nodes_view(before[k as int].body@),
                            left: nodes_view(x.elif_branches@[k as int].body@),
                            answer: answer(res),
                        };
                        lemma_walk_step(s0, d, lists, v);
                        lemma_elifs_view_len(before);
                        lemma_elifs_view_len(x.elif_branches@);
                        assert forall|j: int| 0 <= j < before.len() implies #[trigger] elif_shells(x.elif_branches@)[j]
                            == elif_shells(before)[j] by {
                            lemma_elifs_view_index(before, j);
                            lemma_elifs_view_index(x.elif_branches@, j);
                        }
                        assert(elif_shells(x.elif_branches@) =~= elif_shells(before));
                        assert forall|j: int| k < j < x.elif_branches@.len() implies #[trigger] nodes_view(x.elif_branches@[j].body@)
                            == nodes_view(x0.elif_branches@[j].body@) by {
                            assert(x.elif_branches@[j] == before[j]);
                        }
                        lemma_if_children_elif(xb, **x, k as int);
                        lemma_left_step(d, lists, v);
                        d = d.push(v);
                    }
                    match res {
                        Ok(()) => {
                            k += 1;
                        },
                        Err(e) => {
                            failed = Some(e);
                        },
                    }
                }
                match failed {
                    Some(e) => {
                        let res: Result<(), E> = Err(e);
                        proof {
                            assert(walked(d, lists, res));
                        }
                        return res;
                    },
                    None => {},
                }
                proof {
                    assert(lists.len() == 1 + es0.len() + opt_list(opt_nodes_view(x0.else_branch)).len());
                }
                match &mut x.else_branch {
                    Some(branch) => {
                        let ghost b0 = nodes_view(branch@);
                        let res = visitor.visit(branch);
                        proof {
                            let v = Visit { handed: b0, left: nodes_view(branch@), answer: answer(res) };
                            assert(lists[d.len() as int] == b0);
                            lemma_walk_step(s0, d, lists, v);
                            lemma_left_step(d, lists, v);
                            assert(node_children(node_view(AstNode::If(Box::new(**x)))) =~= (lists_left(d)
                                + lists.skip(d.len() as int)).update(d.len() as int, v.left));
                            d = d.push(v);
                            assert(walked(d, lists, res));
                        }
                        res
                    },
                    None => {
                        let res: Result<(), E> = Ok(());
                        proof {
                            assert(walked(d, lists, res));
                        }
                        res
                    },
                }
            },
            AstNode::For(x) => {
                let ghost x0 = **x;
                let first = visitor.visit(&mut x.body);
                let ghost mut d: Seq<Visit<E>> = seq![
                    Visit { handed: nodes_view(x0.body@), left: nodes_view(x.body@), answer: answer(first) },
                ];
                proof {
                    lemma_walk_step(s0, seq![], lists, d[0]);
                    assert(d =~= Seq::<Visit<E>>::empty().push(d[0]));
                    assert(node_children(node_view(AstNode::For(Box::new(**x)))) =~= lists_left(d)
                        + lists.skip(1));
                }
                match first {
                    Ok(()) => {},
                    Err(e) => {
                        let res: Result<(), E> = Err(e);
                        proof {
                            assert(walked(d, lists, res));
                        }
                        return res;
                    },
                }
                match &mut x.empty_branch {
                    Some(branch) => {
                        let ghost b0 = nodes_view(branch@);
                        let res = visitor.visit(branch);
                        proof {
                            let v = Visit { handed: b0, left: nodes_view(branch@), answer: answer(res) };
                            lemma_walk_step(s0, d, lists, v);
                            lemma_left_step(d, lists, v);
                            d = d.push(v);
                            assert(node_children(node_view(AstNode::For(Box::new(**x)))) =~= lists_left(d)
                                + lists.skip(2));
                            assert(walked(d, lists, res));
                        }
                        res
                    },
                    None => {
                        let res: Result<(), E> = Ok(());
                        proof {
                            assert(walked(d, lists, res));
                        }
                        res
                    },
                }
            },
            AstNode::Ifchanged(x) => {
                let ghost x0 = **x;
                let first = visitor.visit(&mut x.true_branch);
                let ghost mut d: Seq<Visit<E>> = seq![
                    Visit { handed: nodes_view(x0.true_branch@), left: nodes_view(x.true_branch@), answer: answer(first) },
                ];
                proof {
                    lemma_walk_step(s0, seq![], lists, d[0]);
                    assert(d =~= Seq::<Visit<E>>::empty().push(d[0]));
                    assert(node_children(node_view(AstNode::Ifchanged(Box::new(**x)))) =~= lists_left(d)
                        + lists.skip(1));
                }
                match first {
                    Ok(()) => {},
                    Err(e) => {
                        let res: Result<(), E> = Err(e);
                        proof {
                            assert(walked(d, lists, res));
                        }
                        return res;
                    },
                }
                match &mut x.else_branch {
                    Some(branch) => {
                        let ghost b0 = nodes_view(branch@);
                        let res = visitor.visit(branch);
                        proof {
                            let v = Visit { handed: b0, left: nodes_view(branch@), answer: answer(res) };
                            lemma_walk_step(s0, d, lists, v);
                            lemma_left_step(d, lists, v);
                            d = d.push(v);
                            assert(node_children(node_view(AstNode::Ifchanged(Box::new(**x)))) =~= lists_left(d)
                                + lists.skip(2));
                            assert(walked(d, lists, res));
                        }
                        res
                    },
                    None => {
                        let res: Result<(), E> = Ok(());
                        proof {
                            assert(walked(d, lists, res));
                        }
                        res
                    },
                }
            },
            _ => self.visit_body(visitor),
        }
    }

    /// The single child list of a node that has one, handed to `visitor`.
    fn visit_body<E, V: ChildVisitor<E>>(&mut self, visitor: &mut V) -> (r: Result<(), E>)
        requires
            !(*old(self) is If || *old(self) is For || *old(self) is Ifchanged || *old(self) is Block),
        ensures
            shell(node_view(*final(self))) == shell(node_view(*old(self))),
            exists|d: Seq<Visit<E>>|
                {
                    &&& final(visitor).seen() == old(visitor).seen() + d
                    &&& #[trigger] walked(d, node_children(node_view(*old(self))), r)
                    &&& node_children(node_view(*final(self))) == lists_left(d) + node_children(
                        node_view(*old(self)),
                    ).skip(d.len() as int)
                },
    {
        let ghost s0 = visitor.seen();
        let ghost lists = node_children(node_view(*self));
        let res = match self {
            AstNode::With(x) => visit_one(visitor, &mut x.body),
            AstNode::Autoescape(x) => visit_one(visitor, &mut x.body),
            AstNode::Blocktranslate(x) => visit_one(visitor, &mut x.body),
            AstNode::Language(x) => visit_one(visitor, &mut x.body),
            AstNode::FilterBlock(x) => visit_one(visitor, &mut x.body),
            AstNode::Cache(x) => visit_one(visitor, &mut x.body),
            AstNode::Localize(x) => visit_one(visitor, &mut x.body),
            AstNode::Localtime(x) => visit_one(visitor, &mut x.body),
            AstNode::Spaceless(x) => visit_one(visitor, &mut x.body),
            AstNode::Timezone(x) => visit_one(visitor, &mut x.body),
            AstNode::Utc(x) => visit_one(visitor, &mut x.body),
            _ => {
                proof {
                    assert(walked(Seq::<Visit<E>>::empty(), lists, Ok(())));
                    assert(s0 + Seq::<Visit<E>>::empty() =~= s0);
                    assert(lists_left(Seq::<Visit<E>>::empty()) + lists.skip(0) =~= lists);
                }
                Ok(())
            },
        };
        res
    }
}

/// One visit of the only child list `body` of a node.
fn visit_one<E, V: ChildVisitor<E>>(visitor: &mut V, body: &mut Vec<AstNode>) -> (r: Result<(), E>)
    ensures
        exists|d: Seq<Visit<E>>|
            {
                &&& final(visitor).seen() == old(visitor).seen() + d
                &&& #[trigger] walked(d, seq![nodes_view(old(body)@)], r)
                &&& seq![nodes_view(final(body)@)] == lists_left(d) + seq![nodes_view(old(body)@)].skip(
                    d.len() as int,
                )
            },
{
    let ghost s0 = visitor.seen();
    let ghost b0 = nodes_view(body@);
    let res = visitor.visit(body);
    proof {
        let lists = seq![b0];
        let v = Visit { handed: b0, left: nodes_view(body@), answer: answer(res) };
        lemma_walk_step(s0, seq![], lists, v);
        assert(seq![v] =~= Seq::<Visit<E>>::empty().push(v));
        assert(lists_left(seq![v]) + lists.skip(1) =~= seq![nodes_view(body@)]);
        assert(walked(seq![v], lists, res));
    }
    res
}

/// One more visit, of the next of `lists`, after visits `d` that all
/// answered `Ok`.
proof fn lemma_walk_step<E>(s0: Seq<Visit<E>>, d: Seq<Visit<E>>, lists: Seq<Seq<NodeModel>>, v: Visit<E>)
    requires
        walked_ok(d, lists),
        d.len() < lists.len(),
        v.handed == lists[d.len() as int],
    ensures
        (s0 + d).push(v) == s0 + d.push(v),
        d.push(v).drop_last() == d,
        v.answer is None ==> walked_ok(d.push(v), lists),
        v.answer matches Some(e) ==> walked(d.push(v), lists, Err(e)),
        d.push(v).len() == lists.len() && v.answer is None ==> walked(d.push(v), lists, Ok::<(), E>(())),
{
    assert((s0 + d).push(v) =~= s0 + d.push(v));
    assert(d.push(v).drop_last() =~= d);
    if v.answer is None {
        assert forall|i: int| 0 <= i < d.push(v).len() implies #[trigger] d.push(v)[i].handed == lists[i]
            && d.push(v)[i].answer is None by {
            if i < d.len() {
                assert(d.push(v)[i] == d[i]);
            }
        }
        assert(walked_ok(d.push(v), lists));
        let ok: Result<(), E> = Ok(());
        assert(d.push(v).len() == lists.len() ==> walked(d.push(v), lists, ok));
    }
}

/// The lists left after one more visit: the next list is replaced by the
/// one that visit left.
proof fn lemma_left_step<E>(d: Seq<Visit<E>>, lists: Seq<Seq<NodeModel>>, v: Visit<E>)
    requires
        d.len() < lists.len(),
    ensures
        lists_left(d.push(v)) + lists.skip(d.len() as int + 1) == (lists_left(d) + lists.skip(d.len() as int)).update(
            d.len() as int,
            v.left,
        ),
{
    assert(lists_left(d.push(v)) + lists.skip(d.len() as int + 1) =~= (lists_left(d) + lists.skip(
        d.len() as int,
    )).update(d.len() as int, v.left));
}

/// Rewriting the true branch of an if node rewrites its first child list.
proof fn lemma_if_children_true(a: IfNode, b: IfNode)
    requires
        b.elif_branches == a.elif_branches,
        b.else_branch == a.else_branch,
    ensures
        node_children(node_view(AstNode::If(Box::new(b)))) == node_children(
            node_view(AstNode::If(Box::new(a))),
        ).update(0, nodes_view(b.true_branch@)),
{
    assert(node_children(node_view(AstNode::If(Box::new(b)))) =~= node_children(
        node_view(AstNode::If(Box::new(a))),
    ).update(0, nodes_view(b.true_branch@)));
}

/// Rewriting the body of elif branch `k` of an if node rewrites its child
/// list `1 + k`.
proof fn lemma_if_children_elif(a: IfNode, b: IfNode, k: int)
    requires
        0 <= k < a.elif_branches@.len(),
        b.elif_branches@.len() == a.elif_branches@.len(),
        b.true_branch == a.true_branch,
        b.else_branch == a.else_branch,
        forall|j: int| 0 <= j < a.elif_branches@.len() && j != k ==> b.elif_branches@[j] == a.elif_branches@[j],
    ensures
        node_children(node_view(AstNode::If(Box::new(b)))) == node_children(
            node_view(AstNode::If(Box::new(a))),
        ).update(1 + k, nodes_view(b.elif_branches@[k].body@)),
{
    lemma_elifs_view_len(a.elif_branches@);
    lemma_elifs_view_len(b.elif_branches@);
    assert forall|j: int| 0 <= j < a.elif_branches@.len() implies #[trigger] elifs_view(b.elif_branches@)[j].body
        == if j == k {
        nodes_view(b.elif_branches@[k].body@)
    } else {
        elifs_view(a.elif_branches@)[j].body
    } by {
        lemma_elifs_view_index(a.elif_branches@, j);
        lemma_elifs_view_index(b.elif_branches@, j);
    }
    assert(node_children(node_view(AstNode::If(Box::new(b)))) =~= node_children(
        node_view(AstNode::If(Box::new(a))),
    ).update(1 + k, nodes_view(b.elif_branches@[k].body@)));
}

} // verus!
