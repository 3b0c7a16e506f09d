//! The filters that templates may use: Django's built-in and humanize
//! filters and the project's own.
use vstd::prelude::*;
use crate::compiler::ast::{ast_filters_view, Filter};
use crate::text::{append_str, chars_of, chars_of_string, eq_lit};

verus! {

/// Django's built-in filters.
pub open spec fn is_builtin_filter(name: Seq<char>) -> bool {
    ||| name == "add"@
    ||| name == "addslashes"@
    ||| name == "capfirst"@
    ||| name == "center"@
    ||| name == "cut"@
    ||| name == "date"@
    ||| name == "default"@
    ||| name == "default_if_none"@
    ||| name == "dictsort"@
    ||| name == "dictsortreversed"@
    ||| name == "divisibleby"@
    ||| name == "escape"@
    ||| name == "escapejs"@
    ||| name == "filesizeformat"@
    ||| name == "first"@
    ||| name == "floatformat"@
    ||| name == "force_escape"@
    ||| name == "get_digit"@
    ||| name == "iriencode"@
    ||| name == "join"@
    ||| name == "json_script"@
    ||| name == "last"@
    ||| name == "length"@
    ||| name == "length_is"@
    ||| name == "linebreaks"@
    ||| name == "linebreaksbr"@
    ||| name == "linenumbers"@
    ||| name == "ljust"@
    ||| name == "lower"@
    ||| name == "make_list"@
    ||| name == "phone2numeric"@
    ||| name == "pluralize"@
    ||| name == "pprint"@
    ||| name == "random"@
    ||| name == "rjust"@
    ||| name == "safe"@
    ||| name == "safeseq"@
    ||| name == "slice"@
    ||| name == "slugify"@
    ||| name == "stringformat"@
    ||| name == "striptags"@
    ||| name == "time"@
    ||| name == "timesince"@
    ||| name == "timeuntil"@
    ||| name == "title"@
    ||| name == "truncatechars"@
    ||| name == "truncatechars_html"@
    ||| name == "truncatewords"@
    ||| name == "truncatewords_html"@
    ||| name == "unordered_list"@
    ||| name == "upper"@
    ||| name == "urlencode"@
    ||| name == "urlize"@
    ||| name == "urlizetrunc"@
    ||| name == "wordcount"@
    ||| name == "wordwrap"@
    ||| name == "yesno"@
}

/// The filters of `django.contrib.humanize`.
pub open spec fn is_humanize_filter(name: Seq<char>) -> bool {
    ||| name == "apnumber"@
    ||| name == "intcomma"@
    ||| name == "intword"@
    ||| name == "naturalday"@
    ||| name == "naturaltime"@
    ||| name == "ordinal"@
}

/// The project's own filters.
pub open spec fn is_project_filter(name: Seq<char>) -> bool {
    ||| name == "add_str"@
    ||| name == "dashes_and_spaces_to_underscore"@
    ||| name == "dashes_to_underscore"@
    ||| name == "format_to_html"@
    ||| name == "humanize_duration"@
    ||| name == "humanize_duration_simple"@
    ||| name == "in_list"@
    ||| name == "index"@
    ||| name == "is_dict"@
    ||| name == "is_list"@
    ||| name == "is_list_or_tuple"@
    ||| name == "is_not_dict"@
    ||| name == "is_not_list"@
    ||| name == "is_not_list_or_tuple"@
    ||| name == "is_not_tuple"@
    ||| name == "is_path"@
    ||| name == "is_tuple"@
    ||| name == "model_app_label"@
    ||| name == "model_name"@
    ||| name == "not_in_list"@
    ||| name == "render_markdown"@
    ||| name == "safe_dict_items"@
    ||| name == "spaces_to_underscore"@
    ||| name == "to_json"@
    ||| name == "to_snake_case"@
    ||| name == "underscores_to_spaces"@
}

/// A filter name the registry knows.
pub open spec fn is_known_filter(name: Seq<char>) -> bool {
    is_builtin_filter(name) || is_humanize_filter(name) || is_project_filter(name)
}

/// The filter names a template may use: Django's built-in filters, the
/// filters of `django.contrib.humanize` and the project's own filters, as
/// one set.
pub open spec fn registered_filter_names() -> Set<Seq<char>> {
    set![
        "add"@,
        "addslashes"@,
        "capfirst"@,
        "center"@,
        "cut"@,
        "date"@,
        "default"@,
        "default_if_none"@,
        "dictsort"@,
        "dictsortreversed"@,
        "divisibleby"@,
        "escape"@,
        "escapejs"@,
        "filesizeformat"@,
        "first"@,
        "floatformat"@,
        "force_escape"@,
        "get_digit"@,
        "iriencode"@,
        "join"@,
        "json_script"@,
        "last"@,
        "length"@,
        "length_is"@,
        "linebreaks"@,
        "linebreaksbr"@,
        "linenumbers"@,
        "ljust"@,
        "lower"@,
        "make_list"@,
        "phone2numeric"@,
        "pluralize"@,
        "pprint"@,
        "random"@,
        "rjust"@,
        "safe"@,
        "safeseq"@,
        "slice"@,
        "slugify"@,
        "stringformat"@,
        "striptags"@,
        "time"@,
        "timesince"@,
        "timeuntil"@,
        "title"@,
        "truncatechars"@,
        "truncatechars_html"@,
        "truncatewords"@,
        "truncatewords_html"@,
        "unordered_list"@,
        "upper"@,
        "urlencode"@,
        "urlize"@,
        "urlizetrunc"@,
        "wordcount"@,
        "wordwrap"@,
        "yesno"@,
        "apnumber"@,
        "intcomma"@,
        "intword"@,
        "naturalday"@,
        "naturaltime"@,
        "ordinal"@,
        "add_str"@,
        "dashes_and_spaces_to_underscore"@,
        "dashes_to_underscore"@,
        "format_to_html"@,
        "humanize_duration"@,
        "humanize_duration_simple"@,
        "in_list"@,
        "index"@,
        "is_dict"@,
        "is_list"@,
        "is_list_or_tuple"@,
        "is_not_dict"@,
        "is_not_list"@,
        "is_not_list_or_tuple"@,
        "is_not_tuple"@,
        "is_path"@,
        "is_tuple"@,
        "model_app_label"@,
        "model_name"@,
        "not_in_list"@,
        "render_markdown"@,
        "safe_dict_items"@,
        "spaces_to_underscore"@,
        "to_json"@,
        "to_snake_case"@,
        "underscores_to_spaces"@,
    ]
}

/// A filter name is known exactly when it is one of the registered names:
/// `validate_filter` accepts those and rejects every other name with its
/// message.
pub proof fn law_filter_registry(name: Seq<char>)
    ensures
        is_known_filter(name) <==> registered_filter_names().contains(name),
{
}

/// The message for an unknown filter.
pub open spec fn unknown_filter_message(name: Seq<char>) -> Seq<char> {
    "Unknown filter: '"@ + name + "'"@
}

fn builtin(name: &Vec<char>) -> (r: bool)
    ensures
        r == is_builtin_filter(name@),
{
    eq_lit(name, "add") ||
        eq_lit(name, "addslashes") ||
        eq_lit(name, "capfirst") ||
        eq_lit(name, "center") ||
        eq_lit(name, "cut") ||
        eq_lit(name, "date") ||
        eq_lit(name, "default") ||
        eq_lit(name, "default_if_none") ||
        eq_lit(name, "dictsort") ||
        eq_lit(name, "dictsortreversed") ||
        eq_lit(name, "divisibleby") ||
        eq_lit(name, "escape") ||
        eq_lit(name, "escapejs") ||
        eq_lit(name, "filesizeformat") ||
        eq_lit(name, "first") ||
        eq_lit(name, "floatformat") ||
        eq_lit(name, "force_escape") ||
        eq_lit(name, "get_digit") ||
        eq_lit(name, "iriencode") ||
        eq_lit(name, "join") ||
        eq_lit(name, "json_script") ||
        eq_lit(name, "last") ||
        eq_lit(name, "length") ||
        eq_lit(name, "length_is") ||
        eq_lit(name, "linebreaks") ||
        eq_lit(name, "linebreaksbr") ||
        eq_lit(name, "linenumbers") ||
        eq_lit(name, "ljust") ||
        eq_lit(name, "lower") ||
        eq_lit(name, "make_list") ||
        eq_lit(name, "phone2numeric") ||
        eq_lit(name, "pluralize") ||
        eq_lit(name, "pprint") ||
        eq_lit(name, "random") ||
        eq_lit(name, "rjust") ||
        eq_lit(name, "safe") ||
        eq_lit(name, "safeseq") ||
        eq_lit(name, "slice") ||
        eq_lit(name, "slugify") ||
        eq_lit(name, "stringformat") ||
        eq_lit(name, "striptags") ||
        eq_lit(name, "time") ||
        eq_lit(name, "timesince") ||
        eq_lit(name, "timeuntil") ||
        eq_lit(name, "title") ||
        eq_lit(name, "truncatechars") ||
        eq_lit(name, "truncatechars_html") ||
        eq_lit(name, "truncatewords") ||
        eq_lit(name, "truncatewords_html") ||
        eq_lit(name, "unordered_list") ||
        eq_lit(name, "upper") ||
        eq_lit(name, "urlencode") ||
        eq_lit(name, "urlize") ||
        eq_lit(name, "urlizetrunc") ||
        eq_lit(name, "wordcount") ||
        eq_lit(name, "wordwrap") ||
        eq_lit(name, "yesno")
}

fn humanize(name: &Vec<char>) -> (r: bool)
    ensures
        r == is_humanize_filter(name@),
{
    eq_lit(name, "apnumber") ||
        eq_lit(name, "intcomma") ||
        eq_lit(name, "intword") ||
        eq_lit(name, "naturalday") ||
        eq_lit(name, "naturaltime") ||
        eq_lit(name, "ordinal")
}

fn project(name: &Vec<char>) -> (r: bool)
    ensures
        r == is_project_filter(name@),
{
    eq_lit(name, "add_str") ||
        eq_lit(name, "dashes_and_spaces_to_underscore") ||
        eq_lit(name, "dashes_to_underscore") ||
        eq_lit(name, "format_to_html") ||
        eq_lit(name, "humanize_duration") ||
        eq_lit(name, "humanize_duration_simple") ||
        eq_lit(name, "in_list") ||
        eq_lit(name, "index") ||
        eq_lit(name, "is_dict") ||
        eq_lit(name, "is_list") ||
        eq_lit(name, "is_list_or_tuple") ||
        eq_lit(name, "is_not_dict") ||
        eq_lit(name, "is_not_list") ||
        eq_lit(name, "is_not_list_or_tuple") ||
        eq_lit(name, "is_not_tuple") ||
        eq_lit(name, "is_path") ||
        eq_lit(name, "is_tuple") ||
        eq_lit(name, "model_app_label") ||
        eq_lit(name, "model_name") ||
        eq_lit(name, "not_in_list") ||
        eq_lit(name, "render_markdown") ||
        eq_lit(name, "safe_dict_items") ||
        eq_lit(name, "spaces_to_underscore") ||
        eq_lit(name, "to_json") ||
        eq_lit(name, "to_snake_case") ||
        eq_lit(name, "underscores_to_spaces")
}

/// `Ok` for a known filter, else the message that names it.
pub fn validate_filter(name: &str) -> (r: Result<(), String>)
    requires
        name@.len() > 0,
    ensures
        is_known_filter(name@) ==> r is Ok,
        !is_known_filter(name@) ==> (r matches Err(m) && m@ == unknown_filter_message(name@)),
{
    let n = chars_of(name);
    if builtin(&n) || humanize(&n) || project(&n) {
        Ok(())
    } else {
        let mut m = String::new();
        append_str(&mut m, "Unknown filter: '");
        append_str(&mut m, name);
        append_str(&mut m, "'");
        Err(m)
    }
}

/// The messages for the unknown filters among `filters`, in order.
pub open spec fn unknown_filters(names: Seq<Seq<char>>) -> Seq<Seq<char>>
    decreases names.len(),
{
    if names.len() == 0 {
        seq![]
    } else {
        let rest = unknown_filters(names.drop_last());
        if is_known_filter(names.last()) {
            rest
        } else {
            rest.push(unknown_filter_message(names.last()))
        }
    }
}

pub open spec fn filter_names(filters: Seq<Filter>) -> Seq<Seq<char>> {
    filters.map_values(|f: Filter| f.name@)
}

/// The messages for the filters of `filters` the registry does not know.
pub fn validate_filters(filters: &[Filter]) -> (r: Vec<String>)
    requires
        filters@.len() <= 100,
        forall|i: int| 0 <= i < filters@.len() ==> (#[trigger] filters@[i]).name@.len() > 0,
    ensures
        r@.map_values(|s: String| s@) == unknown_filters(filter_names(filters@)),
{
    let mut out: Vec<String> = Vec::new();
    let mut k: usize = 0;
    let ghost names = filter_names(filters@);
    assert(names.take(0) =~= Seq::<Seq<char>>::empty());
    assert(out@.map_values(|s: String| s@) =~= Seq::<Seq<char>>::empty());
    while k < filters.len()
        invariant
            k <= filters@.len(),
            names == filter_names(filters@),
            forall|i: int| 0 <= i < filters@.len() ==> (#[trigger] filters@[i]).name@.len() > 0,
            out@.map_values(|s: String| s@) == unknown_filters(names.take(k as int)),
        decreases filters.len() - k,
    {
        let ghost before = out@.map_values(|s: String| s@);
        assert(names.take(k + 1).drop_last() =~= names.take(k as int));
        assert(names[k as int] == filters@[k as int].name@);
        match validate_filter(filters[k].name.as_str()) {
            Ok(()) => {},
            Err(m) => {
                out.push(m);
                assert(out@.map_values(|s: String| s@) =~= before.push(m@));
            },
        }
        k += 1;
    }
    assert(names.take(k as int) =~= names);
    out
}

} // verus!
