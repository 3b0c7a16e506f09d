//! Alpine.js attributes in templates: directives, magic properties and
//! modifiers.
use vstd::prelude::*;
use crate::text::{append_str, chars_of, eq_lit, has_prefix, split};

verus! {

/// The core directives.
pub open spec fn is_core_directive(d: Seq<char>) -> bool {
    ||| d == "x-data"@
    ||| d == "x-init"@
    ||| d == "x-model"@
    ||| d == "x-show"@
    ||| d == "x-if"@
    ||| d == "x-for"@
    ||| d == "x-effect"@
    ||| d == "x-ref"@
    ||| d == "x-cloak"@
    ||| d == "x-transition"@
    ||| d == "x-bind"@
    ||| d == "x-on"@
    ||| d == "x-component"@
    ||| d == "x-trap"@
    ||| d == "x-prevent"@
    ||| d == "x-ignore"@
    ||| d == "x-modelable"@
    ||| d == "x-text"@
    ||| d == "x-html"@
    ||| d == "x-teleport"@
    ||| d == "x-id"@
}

/// The directives of the official plugins.
pub open spec fn is_plugin_directive(d: Seq<char>) -> bool {
    ||| d == "x-intersect"@
    ||| d == "x-intersect:enter"@
    ||| d == "x-intersect:leave"@
    ||| d == "x-collapse"@
    ||| d == "x-mask"@
    ||| d == "x-mask:dynamic"@
    ||| d == "x-sort"@
    ||| d == "x-sort:item"@
    ||| d == "x-sort:group"@
    ||| d == "x-anchor"@
}

/// The transition class directives.
pub open spec fn is_transition_class(d: Seq<char>) -> bool {
    ||| d == "x-transition:enter"@
    ||| d == "x-transition:enter-start"@
    ||| d == "x-transition:enter-end"@
    ||| d == "x-transition:leave"@
    ||| d == "x-transition:leave-start"@
    ||| d == "x-transition:leave-end"@
}

/// The magic properties.
pub open spec fn is_magic_property(p: Seq<char>) -> bool {
    ||| p == "$el"@
    ||| p == "$refs"@
    ||| p == "$store"@
    ||| p == "$watch"@
    ||| p == "$dispatch"@
    ||| p == "$nextTick"@
    ||| p == "$root"@
    ||| p == "$data"@
    ||| p == "$id"@
    ||| p == "$persist"@
    ||| p == "$money"@
}

/// The event modifiers.
pub open spec fn is_event_modifier(m: Seq<char>) -> bool {
    ||| m == ".prevent"@
    ||| m == ".stop"@
    ||| m == ".outside"@
    ||| m == ".window"@
    ||| m == ".document"@
    ||| m == ".once"@
    ||| m == ".debounce"@
    ||| m == ".throttle"@
    ||| m == ".self"@
    ||| m == ".camel"@
    ||| m == ".dot"@
    ||| m == ".passive"@
    ||| m == ".capture"@
}

/// The keyboard modifiers.
pub open spec fn is_keyboard_modifier(m: Seq<char>) -> bool {
    ||| m == ".shift"@
    ||| m == ".ctrl"@
    ||| m == ".alt"@
    ||| m == ".meta"@
    ||| m == ".enter"@
    ||| m == ".escape"@
    ||| m == ".tab"@
    ||| m == ".space"@
    ||| m == ".up"@
    ||| m == ".down"@
    ||| m == ".left"@
    ||| m == ".right"@
}

/// The `x-model` modifiers.
pub open spec fn is_model_modifier(m: Seq<char>) -> bool {
    ||| m == ".lazy"@
    ||| m == ".number"@
    ||| m == ".debounce"@
    ||| m == ".throttle"@
    ||| m == ".fill"@
}

/// The transition modifiers.
pub open spec fn is_transition_modifier(m: Seq<char>) -> bool {
    ||| m == ".duration"@
    ||| m == ".delay"@
    ||| m == ".opacity"@
    ||| m == ".scale"@
}

/// Directives accepted by prefix.
pub open spec fn has_allowed_prefix(d: Seq<char>) -> bool {
    ||| has_prefix(d, "x-bind:"@)
    ||| has_prefix(d, "x-on:"@)
    ||| has_prefix(d, "x-transition"@)
    ||| has_prefix(d, "x-sort"@)
    ||| has_prefix(d, "x-intersect"@)
    ||| has_prefix(d, "x-collapse"@)
    ||| has_prefix(d, "x-anchor"@)
}

/// A directive the validator accepts.
pub open spec fn is_valid_directive(d: Seq<char>) -> bool {
    ||| is_core_directive(d)
    ||| is_plugin_directive(d)
    ||| is_transition_class(d)
    ||| has_prefix(d, ":"@)
    ||| has_prefix(d, "@"@)
    ||| has_allowed_prefix(d)
}

/// The directives Alpine.js and its official plugins define: the core
/// directives, the plugin directives and the transition classes.
pub open spec fn listed_directives() -> Set<Seq<char>> {
    set![
        "x-data"@,
        "x-init"@,
        "x-model"@,
        "x-show"@,
        "x-if"@,
        "x-for"@,
        "x-effect"@,
        "x-ref"@,
        "x-cloak"@,
        "x-transition"@,
        "x-bind"@,
        "x-on"@,
        "x-component"@,
        "x-trap"@,
        "x-prevent"@,
        "x-ignore"@,
        "x-modelable"@,
        "x-text"@,
        "x-html"@,
        "x-teleport"@,
        "x-id"@,
        "x-intersect"@,
        "x-intersect:enter"@,
        "x-intersect:leave"@,
        "x-collapse"@,
        "x-mask"@,
        "x-mask:dynamic"@,
        "x-sort"@,
        "x-sort:item"@,
        "x-sort:group"@,
        "x-anchor"@,
        "x-transition:enter"@,
        "x-transition:enter-start"@,
        "x-transition:enter-end"@,
        "x-transition:leave"@,
        "x-transition:leave-start"@,
        "x-transition:leave-end"@,
    ]
}

/// The prefixes under which any directive is accepted.
pub open spec fn allowlisted_directive_prefixes() -> Set<Seq<char>> {
    set![
        "x-bind:"@,
        "x-on:"@,
        "x-transition"@,
        "x-sort"@,
        "x-intersect"@,
        "x-collapse"@,
        "x-anchor"@,
    ]
}

/// A directive is accepted exactly when it is listed, is a `:` or `@`
/// shorthand, or starts with an allowlisted prefix; `validate_directive`
/// rejects every other directive with the message that names it.
pub proof fn law_directive_acceptance(d: Seq<char>)
    ensures
        is_valid_directive(d) <==> {
            ||| listed_directives().contains(d)
            ||| has_prefix(d, ":"@)
            ||| has_prefix(d, "@"@)
            ||| exists|p: Seq<char>| allowlisted_directive_prefixes().contains(p) && #[trigger] has_prefix(d, p)
        },
{
}

pub open spec fn is_known_modifier(m: Seq<char>) -> bool {
    is_event_modifier(m) || is_keyboard_modifier(m) || is_model_modifier(m)
        || is_transition_modifier(m)
}

/// The magic properties Alpine.js defines, with the project's own.
pub open spec fn listed_magic_properties() -> Set<Seq<char>> {
    set![
        "$el"@,
        "$refs"@,
        "$store"@,
        "$watch"@,
        "$dispatch"@,
        "$nextTick"@,
        "$root"@,
        "$data"@,
        "$id"@,
        "$persist"@,
        "$money"@,
    ]
}

/// The modifiers of every group: event, keyboard, `x-model` and transition
/// modifiers.
pub open spec fn listed_modifiers() -> Set<Seq<char>> {
    set![
        ".prevent"@,
        ".stop"@,
        ".outside"@,
        ".window"@,
        ".document"@,
        ".once"@,
        ".debounce"@,
        ".throttle"@,
        ".self"@,
        ".camel"@,
        ".dot"@,
        ".passive"@,
        ".capture"@,
        ".shift"@,
        ".ctrl"@,
        ".alt"@,
        ".meta"@,
        ".enter"@,
        ".escape"@,
        ".tab"@,
        ".space"@,
        ".up"@,
        ".down"@,
        ".left"@,
        ".right"@,
        ".lazy"@,
        ".number"@,
        ".fill"@,
        ".duration"@,
        ".delay"@,
        ".opacity"@,
        ".scale"@,
    ]
}

/// Law: a magic property is accepted exactly when it is listed;
/// `validate_magic_property` rejects every other one.
pub proof fn law_magic_property_acceptance(p: Seq<char>)
    ensures
        is_magic_property(p) <==> listed_magic_properties().contains(p),
{
}

/// Law: a modifier is known exactly when one of the modifier groups lists
/// it.
pub proof fn law_modifier_registry(m: Seq<char>)
    ensures
        is_known_modifier(m) <==> listed_modifiers().contains(m),
{
}

/// The errors for the modifiers among `parts` (the pieces between dots),
/// empty pieces skipped.
pub open spec fn modifier_errors(parts: Seq<Seq<char>>) -> Seq<Seq<char>>
    decreases parts.len(),
{
    if parts.len() == 0 {
        seq![]
    } else {
        let rest = modifier_errors(parts.drop_last());
        let modifier = "."@ + parts.last();
        if parts.last().len() == 0 || is_known_modifier(modifier) || has_prefix(
            modifier,
            ".debounce"@,
        ) || has_prefix(modifier, ".throttle"@) {
            rest
        } else {
            rest.push("Unknown modifier: '"@ + modifier + "'"@)
        }
    }
}

/// Law: the modifier errors of pieces taken in two runs are the errors of
/// the first run followed by those of the second, and a single piece gets
/// an error exactly when it is non-empty, its modifier (the piece after a
/// dot) is not listed, and it starts with neither `.debounce` nor
/// `.throttle`; the error names the modifier.
pub proof fn law_modifier_errors(a: Seq<Seq<char>>, b: Seq<Seq<char>>, part: Seq<char>)
    ensures
        modifier_errors(a + b) == modifier_errors(a) + modifier_errors(b),
        modifier_errors(seq![part]) == if part.len() == 0 || listed_modifiers().contains("."@ + part)
            || has_prefix("."@ + part, ".debounce"@) || has_prefix("."@ + part, ".throttle"@) {
            Seq::<Seq<char>>::empty()
        } else {
            seq!["Unknown modifier: '"@ + ("."@ + part) + "'"@]
        },
    decreases b.len(),
{
    law_modifier_registry("."@ + part);
    assert(seq![part].drop_last() =~= Seq::<Seq<char>>::empty());
    assert(modifier_errors(Seq::<Seq<char>>::empty()) == Seq::<Seq<char>>::empty());
    assert(seq![part].last() == part);
    if b.len() == 0 {
        assert(a + b =~= a);
        assert(modifier_errors(a) + modifier_errors(b) =~= modifier_errors(a));
    } else {
        law_modifier_errors(a, b.drop_last(), part);
        assert((a + b).drop_last() =~= a + b.drop_last());
        assert((a + b).last() == b.last());
        assert(modifier_errors(a + b) =~= modifier_errors(a) + modifier_errors(b));
    }
    assert(modifier_errors(seq![part]) =~= if part.len() == 0 || listed_modifiers().contains("."@ + part)
        || has_prefix("."@ + part, ".debounce"@) || has_prefix("."@ + part, ".throttle"@) {
        Seq::<Seq<char>>::empty()
    } else {
        seq!["Unknown modifier: '"@ + ("."@ + part) + "'"@]
    });
}

fn core_directive(d: &Vec<char>) -> (r: bool)
    ensures
        r == is_core_directive(d@),
{
    eq_lit(d, "x-data") ||
        eq_lit(d, "x-init") ||
        eq_lit(d, "x-model") ||
        eq_lit(d, "x-show") ||
        eq_lit(d, "x-if") ||
        eq_lit(d, "x-for") ||
        eq_lit(d, "x-effect") ||
        eq_lit(d, "x-ref") ||
        eq_lit(d, "x-cloak") ||
        eq_lit(d, "x-transition") ||
        eq_lit(d, "x-bind") ||
        eq_lit(d, "x-on") ||
        eq_lit(d, "x-component") ||
        eq_lit(d, "x-trap") ||
        eq_lit(d, "x-prevent") ||
        eq_lit(d, "x-ignore") ||
        eq_lit(d, "x-modelable") ||
        eq_lit(d, "x-text") ||
        eq_lit(d, "x-html") ||
        eq_lit(d, "x-teleport") ||
        eq_lit(d, "x-id")
}

fn plugin_directive(d: &Vec<char>) -> (r: bool)
    ensures
        r == is_plugin_directive(d@),
{
    eq_lit(d, "x-intersect") ||
        eq_lit(d, "x-intersect:enter") ||
        eq_lit(d, "x-intersect:leave") ||
        eq_lit(d, "x-collapse") ||
        eq_lit(d, "x-mask") ||
        eq_lit(d, "x-mask:dynamic") ||
        eq_lit(d, "x-sort") ||
        eq_lit(d, "x-sort:item") ||
        eq_lit(d, "x-sort:group") ||
        eq_lit(d, "x-anchor")
}

fn transition_class(d: &Vec<char>) -> (r: bool)
    ensures
        r == is_transition_class(d@),
{
    eq_lit(d, "x-transition:enter") ||
        eq_lit(d, "x-transition:enter-start") ||
        eq_lit(d, "x-transition:enter-end") ||
        eq_lit(d, "x-transition:leave") ||
        eq_lit(d, "x-transition:leave-start") ||
        eq_lit(d, "x-transition:leave-end")
}

fn magic_property(p: &Vec<char>) -> (r: bool)
    ensures
        r == is_magic_property(p@),
{
    eq_lit(p, "$el") ||
        eq_lit(p, "$refs") ||
        eq_lit(p, "$store") ||
        eq_lit(p, "$watch") ||
        eq_lit(p, "$dispatch") ||
        eq_lit(p, "$nextTick") ||
        eq_lit(p, "$root") ||
        eq_lit(p, "$data") ||
        eq_lit(p, "$id") ||
        eq_lit(p, "$persist") ||
        eq_lit(p, "$money")
}

fn event_modifier(m: &Vec<char>) -> (r: bool)
    ensures
        r == is_event_modifier(m@),
{
    eq_lit(m, ".prevent") ||
        eq_lit(m, ".stop") ||
        eq_lit(m, ".outside") ||
        eq_lit(m, ".window") ||
        eq_lit(m, ".document") ||
        eq_lit(m, ".once") ||
        eq_lit(m, ".debounce") ||
        eq_lit(m, ".throttle") ||
        eq_lit(m, ".self") ||
        eq_lit(m, ".camel") ||
        eq_lit(m, ".dot") ||
        eq_lit(m, ".passive") ||
        eq_lit(m, ".capture")
}

fn keyboard_modifier(m: &Vec<char>) -> (r: bool)
    ensures
        r == is_keyboard_modifier(m@),
{
    eq_lit(m, ".shift") ||
        eq_lit(m, ".ctrl") ||
        eq_lit(m, ".alt") ||
        eq_lit(m, ".meta") ||
        eq_lit(m, ".enter") ||
        eq_lit(m, ".escape") ||
        eq_lit(m, ".tab") ||
        eq_lit(m, ".space") ||
        eq_lit(m, ".up") ||
        eq_lit(m, ".down") ||
        eq_lit(m, ".left") ||
        eq_lit(m, ".right")
}

fn model_modifier(m: &Vec<char>) -> (r: bool)
    ensures
        r == is_model_modifier(m@),
{
    eq_lit(m, ".lazy") ||
        eq_lit(m, ".number") ||
        eq_lit(m, ".debounce") ||
        eq_lit(m, ".throttle") ||
        eq_lit(m, ".fill")
}

fn transition_modifier(m: &Vec<char>) -> (r: bool)
    ensures
        r == is_transition_modifier(m@),
{
    eq_lit(m, ".duration") ||
        eq_lit(m, ".delay") ||
        eq_lit(m, ".opacity") ||
        eq_lit(m, ".scale")
}

fn allowed_prefix(d: &Vec<char>) -> (r: bool)
    ensures
        r == has_allowed_prefix(d@),
{
    starts_with(d, "x-bind:") ||
        starts_with(d, "x-on:") ||
        starts_with(d, "x-transition") ||
        starts_with(d, "x-sort") ||
        starts_with(d, "x-intersect") ||
        starts_with(d, "x-collapse") ||
        starts_with(d, "x-anchor")
}

fn starts_with(d: &Vec<char>, p: &str) -> (r: bool)
    ensures
        r == has_prefix(d@, p@),
{
    let pc = chars_of(p);
    assert(d@.subrange(0, d@.len() as int) =~= d@);
    crate::text::range_has_prefix(d, 0, d.len(), &pc)
}

/// `Ok` for a directive the validator accepts, else the message that
/// names it.
pub fn validate_directive(directive: &str) -> (r: Result<(), String>)
    requires
        directive@.len() > 0,
    ensures
        is_valid_directive(directive@) ==> r is Ok,
        !is_valid_directive(directive@) ==> (r matches Err(m) && m@ == "Unknown Alpine.js directive: '"@
            + directive@ + "'"@),
{
    let d = chars_of(directive);
    if core_directive(&d) || plugin_directive(&d) || transition_class(&d) {
        return Ok(());
    }
    if starts_with(&d, ":") || starts_with(&d, "@") {
        return Ok(());
    }
    if allowed_prefix(&d) {
        return Ok(());
    }
    let mut m = String::new();
    append_str(&mut m, "Unknown Alpine.js directive: '");
    append_str(&mut m, directive);
    append_str(&mut m, "'");
    Err(m)
}

/// `Ok` for a known magic property, else the message that names it.
pub fn validate_magic_property(property: &str) -> (r: Result<(), String>)
    requires
        property@.len() > 0,
    ensures
        is_magic_property(property@) ==> r is Ok,
        !is_magic_property(property@) ==> (r matches Err(m) && m@
            == "Unknown Alpine.js magic property: '"@ + property@ + "'"@),
{
    let p = chars_of(property);
    if magic_property(&p) {
        Ok(())
    } else {
        let mut m = String::new();
        append_str(&mut m, "Unknown Alpine.js magic property: '");
        append_str(&mut m, property);
        append_str(&mut m, "'");
        Err(m)
    }
}

/// The errors for the unknown modifiers of a dotted modifier chain.
pub fn validate_modifiers(content: &str) -> (r: Vec<String>)
    requires
        content@.len() > 0,
        split(content@, "."@).len() <= 1000,
    ensures
        r@.map_values(|s: String| s@) == modifier_errors(split(content@, "."@)),
{
    let c = chars_of(content);
    let parts = crate::compiler::parser::split_of(&c, ".");
    let ghost ps = split(content@, "."@);
    assert(crate::compiler::parser::seqs_view(parts@) == ps);
    assert forall|i: int| 0 <= i < ps.len() implies (#[trigger] parts@[i])@ == ps[i] by {
        assert(crate::compiler::parser::seqs_view(parts@)[i] == parts@[i]@);
    }
    let mut errors: Vec<String> = Vec::new();
    let mut k: usize = 0;
    assert(ps.take(0) =~= Seq::<Seq<char>>::empty());
    assert(errors@.map_values(|s: String| s@) =~= Seq::<Seq<char>>::empty());
    while k < parts.len()
        invariant
            k <= parts@.len(),
            parts@.len() == ps.len(),
            forall|i: int| 0 <= i < ps.len() ==> (#[trigger] parts@[i])@ == ps[i],
            errors@.map_values(|s: String| s@) == modifier_errors(ps.take(k as int)),
        decreases parts.len() - k,
    {
        let ghost before = errors@.map_values(|s: String| s@);
        assert(ps.take(k + 1).drop_last() =~= ps.take(k as int));
        assert(ps.take(k + 1).last() == parts@[k as int]@);
        let part = &parts[k];
        if part.len() > 0 {
            let mut modifier: Vec<char> = Vec::new();
            modifier.push('.');
            let mut j: usize = 0;
            while j < part.len()
                invariant
                    j <= part.len(),
                    modifier@ == seq!['.'] + part@.take(j as int),
                decreases part.len() - j,
            {
                modifier.push(part[j]);
                j += 1;
                assert(modifier@ =~= seq!['.'] + part@.take(j as int));
            }
            proof {
                reveal_strlit(".");
                assert(part@.take(j as int) =~= part@);
                assert(modifier@ =~= "."@ + part@);
            }
            if !(event_modifier(&modifier) || keyboard_modifier(&modifier) || model_modifier(&modifier)
                || transition_modifier(&modifier) || starts_with(&modifier, ".debounce")
                || starts_with(&modifier, ".throttle")) {
                let mut m = String::new();
                append_str(&mut m, "Unknown modifier: '");
                let ms = crate::text::string_of_all(&modifier);
                append_str(&mut m, ms.as_str());
                append_str(&mut m, "'");
                errors.push(m);
                assert(errors@.map_values(|s: String| s@) =~= before.push(m@));
            }
        }
        k += 1;
    }
    assert(ps.take(k as int) =~= ps);
    errors
}

} // verus!
