//! What a build decides between its file work: which entry templates to
//! compile, and how it reports the templates that failed.
use vstd::prelude::*;
use crate::cache::{needs_recompile_spec, CompileManifest, FileEntry};
use crate::discovery::{strs, DependencyGraph};
use crate::staleness::{edge_count, find_stale, stale_entries};
use crate::text::{append_str, decimal, push_decimal};

verus! {

/// The templates among `current` (each name with its current cache entry,
/// `None` when it cannot be read) that must be compiled again, in order.
pub open spec fn changed_spec(
    files: Seq<(String, FileEntry)>,
    current: Seq<(String, Option<FileEntry>)>,
) -> Seq<Seq<char>>
    decreases current.len(),
{
    if current.len() == 0 {
        seq![]
    } else {
        let rest = changed_spec(files, current.drop_last());
        let last = current.last();
        let entry = match last.1 {
            Some(e) => Some(&e),
            None => None,
        };
        if needs_recompile_spec(files, last.0@, entry) {
            rest.push(last.0@)
        } else {
            rest
        }
    }
}

/// The templates of `current` whose sources differ from what `manifest`
/// recorded.
pub fn changed_templates(manifest: &CompileManifest, current: &Vec<(String, Option<FileEntry>)>) -> (r: Vec<String>)
    ensures
        strs(r@) == changed_spec(manifest.files@, current@),
{
    let mut out: Vec<String> = Vec::new();
    let mut i: usize = 0;
    assert(current@.take(0) =~= Seq::<(String, Option<FileEntry>)>::empty());
    assert(strs(out@) =~= Seq::<Seq<char>>::empty());
    while i < current.len()
        invariant
            i <= current@.len(),
            strs(out@) == changed_spec(manifest.files@, current@.take(i as int)),
        decreases current.len() - i,
    {
        let item = &current[i];
        assert(current@.take(i + 1).drop_last() =~= current@.take(i as int));
        let stale = manifest.needs_recompile(item.0.as_str(), item.1.as_ref());
        if stale {
            out.push(item.0.clone());
            assert(strs(out@) =~= changed_spec(manifest.files@, current@.take(i as int)).push(
                item.0@,
            ));
        }
        i += 1;
    }
    assert(current@.take(i as int) =~= current@);
    out
}

/// The entry templates a build compiles: every one of them when the output
/// directory is missing or empty, else those that are or reach a template
/// whose source changed.
pub open spec fn plan_spec(
    entries: Seq<Seq<char>>,
    graph: DependencyGraph,
    changed: Seq<Seq<char>>,
    output_missing: bool,
) -> Seq<Seq<char>> {
    if output_missing {
        entries
    } else {
        stale_entries(entries, graph.dependencies@, changed.to_set())
    }
}

pub fn plan(
    entries: &Vec<String>,
    graph: &DependencyGraph,
    changed: &Vec<String>,
    output_missing: bool,
) -> (r: Vec<String>)
    requires
        edge_count(graph.dependencies@) <= usize::MAX,
    ensures
        strs(r@) == plan_spec(strs(entries@), *graph, strs(changed@), output_missing),
{
    if output_missing {
        let mut out: Vec<String> = Vec::new();
        let mut i: usize = 0;
        while i < entries.len()
            invariant
                i <= entries@.len(),
                strs(out@) == strs(entries@).take(i as int),
            decreases entries.len() - i,
        {
            let ghost before = strs(out@);
            let e = &entries[i];
            out.push(e.clone());
            assert(strs(out@) =~= before.push(e@));
            assert(strs(entries@).take(i + 1) =~= strs(entries@).take(i as int).push(e@));
            i += 1;
        }
        assert(strs(entries@).take(i as int) =~= strs(entries@));
        out
    } else {
        find_stale(entries, graph, changed)
    }
}

/// The view of a list of failures: each template's name and message.
pub open spec fn failures_view(v: Seq<(String, String)>) -> Seq<(Seq<char>, Seq<char>)> {
    v.map_values(|f: (String, String)| (f.0@, f.1@))
}

/// The line of one failure.
pub open spec fn failure_line(f: (Seq<char>, Seq<char>)) -> Seq<char> {
    "  "@ + f.0 + ": "@ + f.1
}

/// The report of the failed templates: nothing when none failed, else a
/// heading that counts them and a line for each.
pub open spec fn failure_report_spec(failures: Seq<(Seq<char>, Seq<char>)>) -> Seq<Seq<char>> {
    if failures.len() == 0 {
        seq![]
    } else {
        seq![
            "\n"@ + decimal(failures.len()) + " template"@ + (if failures.len() == 1 {
                ""@
            } else {
                "s"@
            }) + " failed:"@,
        ] + failures.map_values(|f: (Seq<char>, Seq<char>)| failure_line(f))
    }
}

pub fn failure_report(failures: &Vec<(String, String)>) -> (r: Vec<String>)
    ensures
        strs(r@) == failure_report_spec(failures_view(failures@)),
{
    let ghost fv = failures_view(failures@);
    let mut out: Vec<String> = Vec::new();
    if failures.len() == 0 {
        assert(strs(out@) =~= failure_report_spec(fv));
        return out;
    }
    let mut heading = String::new();
    append_str(&mut heading, "\n");
    push_decimal(&mut heading, failures.len() as u64);
    append_str(&mut heading, " template");
    if failures.len() == 1 {
        append_str(&mut heading, "");
    } else {
        append_str(&mut heading, "s");
    }
    append_str(&mut heading, " failed:");
    out.push(heading);
    let ghost lines = fv.map_values(|f: (Seq<char>, Seq<char>)| failure_line(f));
    let mut i: usize = 0;
    assert(strs(out@) =~= failure_report_spec(fv).take(1));
    while i < failures.len()
        invariant
            i <= failures@.len(),
            fv == failures_view(failures@),
            failures@.len() > 0,
            lines == fv.map_values(|f: (Seq<char>, Seq<char>)| failure_line(f)),
            failure_report_spec(fv) == failure_report_spec(fv).take(1) + lines,
            strs(out@) == failure_report_spec(fv).take(1) + lines.take(i as int),
        decreases failures.len() - i,
    {
        let mut line = String::new();
        append_str(&mut line, "  ");
        append_str(&mut line, failures[i].0.as_str());
        append_str(&mut line, ": ");
        append_str(&mut line, failures[i].1.as_str());
        assert(line@ == lines[i as int]);
        let ghost before = strs(out@);
        let ghost l = line@;
        out.push(line);
        assert(strs(out@) =~= before.push(l));
        assert(lines.take(i + 1) =~= lines.take(i as int).push(l));
        assert(strs(out@) =~= failure_report_spec(fv).take(1) + lines.take(i + 1));
        i += 1;
    }
    assert(lines.take(i as int) =~= lines);
    out
}

} // verus!
