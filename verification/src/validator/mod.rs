//! Checks that templates use known filters, Alpine.js attributes and
//! existing templates: every `extends` and `include` target must be a
//! project or a vendored template.
pub mod alpine;
pub mod filters;

use vstd::prelude::*;
use crate::compiler::ast::{node_view, nodes_view, AstNode, NodeModel};
use crate::compiler::error::Severity;
use crate::compiler::walk::{refs_view, walk, walk_nodes};
use crate::discovery::{find_pair, pair_lookup, pairs_view, TemplateIndex};
use crate::loader::{vendor_lookup, vendor_view, VendorIndex};

verus! {

pub const VALIDATION_NODES_MAX: u32 = 500_000;

/// A problem found in a template.
#[derive(Debug, Clone)]
pub struct ValidationError {
    pub template: String,
    pub message: String,
    pub severity: Severity,
}

/// `[ERROR] template: message` or `[WARNING] template: message`.
pub open spec fn issue_text(template: Seq<char>, message: Seq<char>, severity: Severity) -> Seq<char> {
    let label = match severity {
        Severity::Error => "[ERROR] "@,
        Severity::Warning => "[WARNING] "@,
    };
    label + template + ": "@ + message
}

impl ValidationError {
    /// How the problem is reported.
    pub fn to_text(&self) -> (r: String)
        ensures
            r@ == issue_text(self.template@, self.message@, self.severity),
    {
        let mut s = String::new();
        match self.severity {
            Severity::Error => crate::text::append_str(&mut s, "[ERROR] "),
            Severity::Warning => crate::text::append_str(&mut s, "[WARNING] "),
        }
        crate::text::append_str(&mut s, self.template.as_str());
        crate::text::append_str(&mut s, ": ");
        crate::text::append_str(&mut s, self.message.as_str());
        s
    }
}

/// The problems found, as reported: errors and warnings.
pub struct ValidationResult {
    pub errors: Vec<String>,
    pub warnings: Vec<String>,
}

/// Whether `p` names a project or a vendored template.
pub open spec fn known(index: TemplateIndex, vendor: VendorIndex, p: Seq<char>) -> bool {
    pair_lookup(pairs_view(index.templates@), p) is Some || vendor_lookup(
        vendor_view(vendor.lookup@),
        p,
    ) is Some
}

/// The problems a traversal of the nodes `ws` of the template `name` finds:
/// each `extends` of an unknown parent and each `include` of an unknown
/// template, with the severity `severity`.
pub open spec fn issues_spec(
    ws: Seq<NodeModel>,
    name: Seq<char>,
    index: TemplateIndex,
    vendor: VendorIndex,
    severity: Severity,
) -> Seq<(Seq<char>, Seq<char>, Severity)>
    decreases ws.len(),
{
    if ws.len() == 0 {
        seq![]
    } else {
        let rest = issues_spec(ws.drop_last(), name, index, vendor, severity);
        match ws.last() {
            NodeModel::Extends { parent_path, .. } => if known(index, vendor, parent_path) {
                rest
            } else {
                rest.push((name, "Parent template not found: "@ + parent_path, severity))
            },
            NodeModel::Include { path, .. } => if known(index, vendor, path) {
                rest
            } else {
                rest.push((name, "Include template not found: "@ + path, severity))
            },
            _ => rest,
        }
    }
}

pub open spec fn issues_view(v: Seq<ValidationError>) -> Seq<(Seq<char>, Seq<char>, Severity)> {
    v.map_values(|e: ValidationError| (e.template@, e.message@, e.severity))
}

/// Collects the problems of the templates it is given.
pub struct Validator {
    issues: Vec<ValidationError>,
}

/// Whether `p` names a project or a vendored template.
fn is_known(index: &TemplateIndex, vendor: &VendorIndex, p: &String) -> (r: bool)
    ensures
        r == known(*index, *vendor, p@),
{
    if find_pair(&index.templates, p).is_some() {
        return true;
    }
    vendor.entry(p).is_some()
}

impl Validator {
    pub fn new() -> (r: Self)
        ensures
            r.issues().len() == 0,
    {
        Validator { issues: Vec::new() }
    }

    /// The problems found so far, in order.
    pub closed spec fn issues(self) -> Seq<(Seq<char>, Seq<char>, Severity)> {
        issues_view(self.issues@)
    }

    /// Checks the tree `nodes` of the template `name`: problems of a vendored
    /// template are warnings, those of the project's own errors.
    pub fn validate_template(
        &mut self,
        name: &str,
        nodes: &[AstNode],
        index: &TemplateIndex,
        vendor: &VendorIndex,
        is_vendor: bool,
    )
        requires
            name@.len() > 0,
            walk(nodes_view(nodes@)).len() <= VALIDATION_NODES_MAX,
        ensures
            final(self).issues() == old(self).issues() + issues_spec(
                walk(nodes_view(nodes@)),
                name@,
                *index,
                *vendor,
                if is_vendor {
                    Severity::Warning
                } else {
                    Severity::Error
                },
            ),
    {
        let severity = if is_vendor {
            Severity::Warning
        } else {
            Severity::Error
        };
        let order = walk_nodes(nodes);
        let ghost w = walk(nodes_view(nodes@));
        let ghost start = issues_view(self.issues@);
        assert(refs_view(order@).len() == order@.len());
        let mut k: usize = 0;
        assert(w.take(0) =~= Seq::<NodeModel>::empty());
        assert(start + issues_spec(w.take(0), name@, *index, *vendor, severity) =~= start);
        while k < order.len()
            invariant
                k <= order@.len(),
                w == refs_view(order@),
                issues_view(self.issues@) == start + issues_spec(
                    w.take(k as int),
                    name@,
                    *index,
                    *vendor,
                    severity,
                ),
            decreases order.len() - k,
        {
            let node = order[k];
            assert(w[k as int] == node_view(*node));
            assert(w.take(k + 1).drop_last() =~= w.take(k as int));
            let ghost before = issues_view(self.issues@);
            match node {
                AstNode::Extends(e) => {
                    if !is_known(index, vendor, &e.parent_path) {
                        let mut message = String::new();
                        crate::text::append_str(&mut message, "Parent template not found: ");
                        crate::text::append_str(&mut message, e.parent_path.as_str());
                        self.issues.push(
                            ValidationError { template: name.to_owned(), message, severity },
                        );
                        assert(issues_view(self.issues@) =~= before.push(
                            (name@, "Parent template not found: "@ + e.parent_path@, severity),
                        ));
                    }
                },
                AstNode::Include(x) => {
                    if !is_known(index, vendor, &x.path) {
                        let mut message = String::new();
                        crate::text::append_str(&mut message, "Include template not found: ");
                        crate::text::append_str(&mut message, x.path.as_str());
                        self.issues.push(
                            ValidationError { template: name.to_owned(), message, severity },
                        );
                        assert(issues_view(self.issues@) =~= before.push(
                            (name@, "Include template not found: "@ + x.path@, severity),
                        ));
                    }
                },
                _ => {},
            }
            assert(start + issues_spec(w.take(k + 1), name@, *index, *vendor, severity)
                =~= issues_view(self.issues@));
            k += 1;
        }
        assert(w.take(k as int) =~= w);
    }

    /// The problems found, reported: the errors and the warnings, each in
    /// the order found.
    pub fn result(&self) -> (r: ValidationResult)
        ensures
            crate::discovery::strs(r.errors@) == reported(self.issues(), Severity::Error),
            crate::discovery::strs(r.warnings@) == reported(self.issues(), Severity::Warning),
    {
        let mut errors: Vec<String> = Vec::new();
        let mut warnings: Vec<String> = Vec::new();
        let ghost v = issues_view(self.issues@);
        let mut i: usize = 0;
        assert(v.take(0) =~= Seq::<(Seq<char>, Seq<char>, Severity)>::empty());
        assert(crate::discovery::strs(errors@) =~= reported(v.take(0), Severity::Error));
        assert(crate::discovery::strs(warnings@) =~= reported(v.take(0), Severity::Warning));
        while i < self.issues.len()
            invariant
                i <= self.issues@.len(),
                v == issues_view(self.issues@),
                crate::discovery::strs(errors@) == reported(v.take(i as int), Severity::Error),
                crate::discovery::strs(warnings@) == reported(v.take(i as int), Severity::Warning),
            decreases self.issues.len() - i,
        {
            assert(v.take(i + 1).drop_last() =~= v.take(i as int));
            let text = self.issues[i].to_text();
            let ghost e0 = crate::discovery::strs(errors@);
            let ghost w0 = crate::discovery::strs(warnings@);
            match self.issues[i].severity {
                Severity::Error => {
                    errors.push(text);
                    assert(crate::discovery::strs(errors@) =~= e0.push(text@));
                },
                Severity::Warning => {
                    warnings.push(text);
                    assert(crate::discovery::strs(warnings@) =~= w0.push(text@));
                },
            }
            i += 1;
        }
        assert(v.take(i as int) =~= v);
        ValidationResult { errors, warnings }
    }
}

/// The texts of the problems of severity `severity`, in order.
pub open spec fn reported(issues: Seq<(Seq<char>, Seq<char>, Severity)>, severity: Severity) -> Seq<
    Seq<char>,
>
    decreases issues.len(),
{
    if issues.len() == 0 {
        seq![]
    } else {
        let rest = reported(issues.drop_last(), severity);
        let e = issues.last();
        if e.2 == severity {
            rest.push(issue_text(e.0, e.1, e.2))
        } else {
            rest
        }
    }
}

/// Whether every `extends` and `include` among `ws` names a known template.
pub open spec fn all_known(ws: Seq<NodeModel>, index: TemplateIndex, vendor: VendorIndex) -> bool {
    forall|i: int|
        0 <= i < ws.len() ==> match #[trigger] ws[i] {
            NodeModel::Extends { parent_path, .. } => known(index, vendor, parent_path),
            NodeModel::Include { path, .. } => known(index, vendor, path),
            _ => true,
        }
}

/// A template whose parents and includes all exist has no problems, and
/// every problem found is reported with the severity asked for.
pub proof fn law_known_templates_pass(
    ws: Seq<NodeModel>,
    name: Seq<char>,
    index: TemplateIndex,
    vendor: VendorIndex,
    severity: Severity,
)
    ensures
        all_known(ws, index, vendor) ==> issues_spec(ws, name, index, vendor, severity).len() == 0,
        forall|i: int|
            0 <= i < issues_spec(ws, name, index, vendor, severity).len() ==> (#[trigger] issues_spec(
                ws,
                name,
                index,
                vendor,
                severity,
            )[i]).2 == severity && issues_spec(ws, name, index, vendor, severity)[i].0 == name,
    decreases ws.len(),
{
    if ws.len() > 0 {
        law_known_templates_pass(ws.drop_last(), name, index, vendor, severity);
        if all_known(ws, index, vendor) {
            assert forall|i: int| 0 <= i < ws.drop_last().len() implies match #[trigger] ws.drop_last()[i] {
                NodeModel::Extends { parent_path, .. } => known(index, vendor, parent_path),
                NodeModel::Include { path, .. } => known(index, vendor, path),
                _ => true,
            } by {
                assert(ws.drop_last()[i] == ws[i]);
            }
            assert(match ws[ws.len() - 1] {
                NodeModel::Extends { parent_path, .. } => known(index, vendor, parent_path),
                NodeModel::Include { path, .. } => known(index, vendor, path),
                _ => true,
            });
        }
    }
}

} // verus!
