//! Positions, diagnostics and the error types of the template compiler.
use vstd::prelude::*;
use crate::text::{append_str, decimal, push_decimal};
use vstd::string::StringSliceAdditionalSpecFns;

verus! {

/// A byte range `start..end` of a template source.
#[derive(Debug, Clone, Copy, PartialEq, Eq)]
pub struct Span {
    pub start: u32,
    pub end: u32,
}

impl Span {
    pub fn new(start: u32, end: u32) -> (r: Self)
        requires
            start <= end,
        ensures
            r.start == start,
            r.end == end,
    {
        Self { start, end }
    }

    /// The text that the span covers; both ends must fall on character
    /// boundaries of `source`.
    pub fn extract<'a>(&self, source: &'a str) -> (r: &'a str)
        requires
            self.start <= self.end,
            self.end <= source.spec_bytes().len(),
            vstd::utf8::is_char_boundary(source.spec_bytes(), self.start as int),
            vstd::utf8::is_char_boundary(source.spec_bytes(), self.end as int),
        ensures
            r.spec_bytes() == source.spec_bytes().subrange(self.start as int, self.end as int),
    {
        let start = self.start as usize;
        let end = self.end as usize;
        let (head, _) = source.split_at(end);
        proof {
            let b = source.spec_bytes();
            assert(head.spec_bytes() =~= b.subrange(0, end as int));
            assert(vstd::utf8::is_char_boundary(head.spec_bytes(), start as int)) by {
                vstd::utf8::encode_utf8_valid_utf8(source@);
                vstd::utf8::encode_utf8_valid_utf8(head@);
                if start < end {
                    assert(head.spec_bytes()[start as int] == b[start as int]);
                    vstd::utf8::is_char_boundary_iff_not_is_continuation_byte(b, start as int);
                    vstd::utf8::is_char_boundary_iff_not_is_continuation_byte(
                        head.spec_bytes(),
                        start as int,
                    );
                } else {
                    vstd::utf8::is_char_boundary_start_end_of_seq(head.spec_bytes());
                }
            }
        }
        let (_, tail) = head.split_at(start);
        assert(tail.spec_bytes() =~= source.spec_bytes().subrange(start as int, end as int));
        tail
    }
}

#[derive(Debug, Clone, Copy, PartialEq, Eq)]
pub enum Severity {
    Warning,
    Error,
}

/// A message from the parser: a warning it recovered from, or an error.
#[derive(Debug, Clone)]
pub struct Diagnostic {
    pub message: String,
    pub severity: Severity,
    pub position: u32,
}

/// The view of a diagnostic.
pub struct DiagnosticModel {
    pub message: Seq<char>,
    pub severity: Severity,
    pub position: u32,
}

impl View for Diagnostic {
    type V = DiagnosticModel;

    open spec fn view(&self) -> DiagnosticModel {
        DiagnosticModel { message: self.message@, severity: self.severity, position: self.position }
    }
}

pub open spec fn severity_label(s: Severity) -> Seq<char> {
    match s {
        Severity::Warning => "WARN"@,
        Severity::Error => "ERROR"@,
    }
}

/// `[LABEL] at position N: message`.
pub open spec fn diagnostic_text(d: DiagnosticModel) -> Seq<char> {
    "["@ + severity_label(d.severity) + "] at position "@ + decimal(d.position as nat) + ": "@
        + d.message
}

impl Diagnostic {
    /// The one-line rendering of the diagnostic.
    pub fn to_text(&self) -> (r: String)
        ensures
            r@ == diagnostic_text(self@),
    {
        let mut s = String::new();
        append_str(&mut s, "[");
        match self.severity {
            Severity::Warning => append_str(&mut s, "WARN"),
            Severity::Error => append_str(&mut s, "ERROR"),
        }
        append_str(&mut s, "] at position ");
        push_decimal(&mut s, self.position as u64);
        append_str(&mut s, ": ");
        append_str(&mut s, self.message.as_str());
        assert(s@ =~= diagnostic_text(self@));
        s
    }
}

/// Errors of the lexer; each carries the byte offset where the unterminated
/// construct opens.
#[derive(Debug, Clone, Copy, PartialEq, Eq)]
pub enum LexError {
    UnterminatedVariable(u32),
    UnterminatedBlock(u32),
    UnterminatedComment(u32),
    UnterminatedString(u32),
}

pub open spec fn lex_error_text(e: LexError) -> Seq<char> {
    match e {
        LexError::UnterminatedVariable(p) => "Unterminated variable at position "@ + decimal(
            p as nat,
        ),
        LexError::UnterminatedBlock(p) => "Unterminated block tag at position "@ + decimal(
            p as nat,
        ),
        LexError::UnterminatedComment(p) => "Unterminated comment at position "@ + decimal(
            p as nat,
        ),
        LexError::UnterminatedString(p) => "Unterminated string at position "@ + decimal(
            p as nat,
        ),
    }
}

impl LexError {
    /// The error's message.
    pub fn to_text(&self) -> (r: String)
        ensures
            r@ == lex_error_text(*self),
    {
        let mut s = String::new();
        let p = match *self {
            LexError::UnterminatedVariable(p) => {
                append_str(&mut s, "Unterminated variable at position ");
                p
            },
            LexError::UnterminatedBlock(p) => {
                append_str(&mut s, "Unterminated block tag at position ");
                p
            },
            LexError::UnterminatedComment(p) => {
                append_str(&mut s, "Unterminated comment at position ");
                p
            },
            LexError::UnterminatedString(p) => {
                append_str(&mut s, "Unterminated string at position ");
                p
            },
        };
        push_decimal(&mut s, p as u64);
        s
    }
}

/// Errors of the parser.
#[derive(Debug, Clone)]
pub enum ParseError {
    UnexpectedToken { line: u32, col: u32, message: String },
    UnclosedBlock { tag: String },
    MismatchedEndTag { expected: String, got: String },
    Generic(String),
}

pub open spec fn parse_error_text(e: ParseError) -> Seq<char> {
    match e {
        ParseError::UnexpectedToken { line, col, message } => "Unexpected token at line "@
            + decimal(line as nat) + ", col "@ + decimal(col as nat) + ": "@ + message@,
        ParseError::UnclosedBlock { tag } => "Unclosed block tag: "@ + tag@,
        ParseError::MismatchedEndTag { expected, got } => "Mismatched end tag: expected "@
            + expected@ + ", got "@ + got@,
        ParseError::Generic(m) => "Parse error: "@ + m@,
    }
}

impl ParseError {
    /// The error's message.
    pub fn to_text(&self) -> (r: String)
        ensures
            r@ == parse_error_text(*self),
    {
        let mut s = String::new();
        match self {
            ParseError::UnexpectedToken { line, col, message } => {
                append_str(&mut s, "Unexpected token at line ");
                push_decimal(&mut s, *line as u64);
                append_str(&mut s, ", col ");
                push_decimal(&mut s, *col as u64);
                append_str(&mut s, ": ");
                append_str(&mut s, message.as_str());
            },
            ParseError::UnclosedBlock { tag } => {
                append_str(&mut s, "Unclosed block tag: ");
                append_str(&mut s, tag.as_str());
            },
            ParseError::MismatchedEndTag { expected, got } => {
                append_str(&mut s, "Mismatched end tag: expected ");
                append_str(&mut s, expected.as_str());
                append_str(&mut s, ", got ");
                append_str(&mut s, got.as_str());
            },
            ParseError::Generic(m) => {
                append_str(&mut s, "Parse error: ");
                append_str(&mut s, m.as_str());
            },
        }
        s
    }
}

/// Errors of template resolution.
#[derive(Debug, Clone)]
pub enum CompileError {
    Lex(LexError),
    Parse(ParseError),
    CircularInheritance { template: String },
    ParentNotFound { path: String },
    EmptyInheritanceChain { template: String },
    InheritanceDepthExceeded { max_depth: u32, template: String },
    AstDepthExceeded { max_depth: u32 },
    NodeLimitExceeded { template: String, max: u32 },
    ParsedNodeLimitExceeded { path: String, count: usize, max: u32 },
    TemplateRead { path: String, message: String },
}

pub open spec fn compile_error_text(e: CompileError) -> Seq<char> {
    match e {
        CompileError::Lex(l) => lex_error_text(l),
        CompileError::Parse(p) => parse_error_text(p),
        CompileError::CircularInheritance { template } => "Circular inheritance detected: "@
            + template@,
        CompileError::ParentNotFound { path } => "Parent template not found: "@ + path@,
        CompileError::EmptyInheritanceChain { template } =>
            "Inheritance chain is empty for template: "@ + template@,
        CompileError::InheritanceDepthExceeded { max_depth, template } =>
            "Inheritance chain exceeds maximum depth "@ + decimal(max_depth as nat)
            + " for template: "@ + template@,
        CompileError::AstDepthExceeded { max_depth } => "AST depth exceeds maximum "@ + decimal(
            max_depth as nat,
        ),
        CompileError::NodeLimitExceeded { template, max } => "Node count exceeds maximum "@
            + decimal(max as nat) + " for template: "@ + template@,
        CompileError::ParsedNodeLimitExceeded { path, count, max } => "Parsed template '"@
            + path@ + "' produced "@ + decimal(count as nat) + " nodes, exceeds maximum "@
            + decimal(max as nat),
        CompileError::TemplateRead { path, message } => "Failed to read template '"@ + path@
            + "': "@ + message@,
    }
}

impl CompileError {
    /// The error's message.
    pub fn to_text(&self) -> (r: String)
        ensures
            r@ == compile_error_text(*self),
    {
        match self {
            CompileError::Lex(l) => l.to_text(),
            CompileError::Parse(p) => p.to_text(),
            CompileError::CircularInheritance { template } => {
                let mut s = String::new();
                append_str(&mut s, "Circular inheritance detected: ");
                append_str(&mut s, template.as_str());
                s
            },
            CompileError::ParentNotFound { path } => {
                let mut s = String::new();
                append_str(&mut s, "Parent template not found: ");
                append_str(&mut s, path.as_str());
                s
            },
            CompileError::EmptyInheritanceChain { template } => {
                let mut s = String::new();
                append_str(&mut s, "Inheritance chain is empty for template: ");
                append_str(&mut s, template.as_str());
                s
            },
            CompileError::InheritanceDepthExceeded { max_depth, template } => {
                let mut s = String::new();
                append_str(&mut s, "Inheritance chain exceeds maximum depth ");
                push_decimal(&mut s, *max_depth as u64);
                append_str(&mut s, " for template: ");
                append_str(&mut s, template.as_str());
                s
            },
            CompileError::AstDepthExceeded { max_depth } => {
                let mut s = String::new();
                append_str(&mut s, "AST depth exceeds maximum ");
                push_decimal(&mut s, *max_depth as u64);
                s
            },
            CompileError::NodeLimitExceeded { template, max } => {
                let mut s = String::new();
                append_str(&mut s, "Node count exceeds maximum ");
                push_decimal(&mut s, *max as u64);
                append_str(&mut s, " for template: ");
                append_str(&mut s, template.as_str());
                s
            },
            CompileError::ParsedNodeLimitExceeded { path, count, max } => {
                let mut s = String::new();
                append_str(&mut s, "Parsed template '");
                append_str(&mut s, path.as_str());
                append_str(&mut s, "' produced ");
                push_decimal(&mut s, *count as u64);
                append_str(&mut s, " nodes, exceeds maximum ");
                push_decimal(&mut s, *max as u64);
                s
            },
            CompileError::TemplateRead { path, message } => {
                let mut s = String::new();
                append_str(&mut s, "Failed to read template '");
                append_str(&mut s, path.as_str());
                append_str(&mut s, "': ");
                append_str(&mut s, message.as_str());
                s
            },
        }
    }
}

} // verus!
