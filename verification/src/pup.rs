//! Import and visibility rules enforced with cargo-pup: the configuration
//! written for a rule, the coverage probe that must fail before the rule
//! counts, and how a cargo-pup run is judged from its exit code and output.

use vstd::prelude::*;
use crate::text::{
    chars_of, push_text, push_slice, push_debug, push_decimal, string_of, debug_quoted, decimal,
    is_white_space, white_space, has_prefix, starts_with_chars, occurs_at, contains_text,
    find_text, contains_chars, str_contains, is_ascii_letter, is_ascii_letter_or_digit,
    ascii_letter, ascii_letter_or_digit, text_eq, trimmed, trim_chars, chars_eq,
};
use crate::policy::{first_in, lemma_first_in, lemma_first_in_range};
use crate::graph::owned;
use crate::wire::{copy_range, read_line, text_lines, find_char, is_char};
use crate::graph::first_where;

verus! {

// ---------------------------------------------------------------------------
// Rules
// ---------------------------------------------------------------------------

/// An import rule: code in `module` must not import any of `deny_imports`.
#[derive(Clone, Copy)]
pub struct Rule {
    pub name: &'static str,
    pub module: &'static str,
    pub deny_imports: &'static [&'static str],
}

/// The characters of an import rule.
pub struct RuleView {
    pub name: Seq<char>,
    pub module: Seq<char>,
    pub deny_imports: Seq<Seq<char>>,
}

impl View for Rule {
    type V = RuleView;

    open spec fn view(&self) -> RuleView {
        RuleView {
            name: self.name@,
            module: self.module@,
            deny_imports: self.deny_imports@.map_values(|a: &str| a@),
        }
    }
}

/// The visibility that a struct must have.
#[derive(Clone, Copy, Debug, PartialEq, Eq)]
pub enum Visibility {
    Private,
    Public,
    PubCrate,
}

/// A visibility rule: structs named `struct_name` (a short name, as
/// cargo-pup matches it) must have `visibility`.
#[derive(Clone, Copy)]
pub struct VisibilityRule {
    pub name: &'static str,
    pub struct_name: &'static str,
    pub visibility: Visibility,
}

/// What a cargo-pup run is expected to show.
#[derive(Clone, Copy, Debug, PartialEq, Eq)]
pub enum Expectation {
    /// The code obeys the rule.
    Pass,
    /// The rule rejects the code with a named error.
    Denied,
    /// A known limitation: the run passes though the code breaks the rule.
    KnownGap,
    /// The rule's selector matches nothing.
    MissingTarget,
}

/// A rule of either kind.
#[derive(Clone, Copy)]
pub enum Lint<'a> {
    Imports(&'a Rule),
    Visibility(&'a VisibilityRule),
}

/// The rules whose name is `name`.
pub open spec fn named(rules: Seq<Rule>, name: Seq<char>) -> spec_fn(int) -> bool {
    |i: int| rules[i].name@ == name
}

/// The only rule named `name`, or an error when there is none or more than
/// one.
pub fn find_rule<'a>(rules: &'a [Rule], name: &str) -> (r: Result<&'a Rule, String>)
    ensures
        ({
            let p = named(rules@, name@);
            let i = first_in(0, rules@.len() as int, p);
            let j = first_in(i + 1, rules@.len() as int, p);
            match r {
                Ok(rule) => i >= 0 && j < 0 && *rule == rules@[i],
                Err(m) => if i < 0 {
                    m@ == "Unknown rule: "@ + name@
                } else {
                    j >= 0 && m@ == "Duplicate rule: "@ + name@
                },
            }
        }),
{
    let ghost p = named(rules@, name@);
    let mut i: usize = 0;
    while i < rules.len() && !text_eq(rules[i].name, name)
        invariant
            i <= rules@.len(),
            p == named(rules@, name@),
            forall|k: int| 0 <= k < i ==> !#[trigger] p(k),
        decreases rules.len() - i,
    {
        i = i + 1;
    }
    proof {
        lemma_first_in(0, rules@.len() as int, p, i as int);
    }
    if i == rules.len() {
        let mut out = chars_of("Unknown rule: ");
        push_text(&mut out, name);
        return Err(string_of(&out));
    }
    let mut j: usize = i + 1;
    while j < rules.len() && !text_eq(rules[j].name, name)
        invariant
            i < j <= rules@.len(),
            p == named(rules@, name@),
            forall|k: int| i + 1 <= k < j ==> !#[trigger] p(k),
        decreases rules.len() - j,
    {
        j = j + 1;
    }
    proof {
        lemma_first_in(i + 1, rules@.len() as int, p, j as int);
    }
    if j < rules.len() {
        let mut out = chars_of("Duplicate rule: ");
        push_text(&mut out, name);
        return Err(string_of(&out));
    }
    Ok(&rules[i])
}

// ---------------------------------------------------------------------------
// Paths
// ---------------------------------------------------------------------------

/// `s` without whitespace.
pub open spec fn without_white_space(s: Seq<char>) -> Seq<char>
    decreases s.len(),
{
    if s.len() == 0 {
        seq![]
    } else {
        without_white_space(s.drop_last()) + if is_white_space(s.last()) {
            seq![]
        } else {
            seq![s.last()]
        }
    }
}

/// The path separator `::`.
pub open spec fn separator() -> Seq<char> {
    seq![':', ':']
}

/// The indices where a separator starts.
pub open spec fn separator_at(s: Seq<char>) -> spec_fn(int) -> bool {
    |k: int| occurs_at(s, separator(), k)
}

/// The segments of a path, as `str::split("::")` gives them.
pub open spec fn path_segments(s: Seq<char>) -> Seq<Seq<char>>
    decreases s.len(),
{
    let i = first_in(0, s.len() as int, separator_at(s));
    proof {
        lemma_first_in_range(0, s.len() as int, separator_at(s));
    }
    if i < 0 {
        seq![s]
    } else {
        seq![s.take(i)] + path_segments(s.skip(i + 2))
    }
}

/// An ASCII identifier: a letter or `_`, then letters, digits or `_`.
pub open spec fn is_identifier(seg: Seq<char>) -> bool {
    &&& seg.len() > 0
    &&& (is_ascii_letter(seg[0]) || seg[0] == '_')
    &&& forall|k: int| 1 <= k < seg.len() ==> is_ascii_letter_or_digit(#[trigger] seg[k]) || seg[k] == '_'
}

/// A path of ASCII identifiers separated by `::`.
pub open spec fn is_simple_path(s: Seq<char>) -> bool {
    forall|i: int| 0 <= i < path_segments(s).len() ==> is_identifier(#[trigger] path_segments(s)[i])
}

/// A path with its whitespace removed, if what remains is a simple path.
pub open spec fn normalized_spec(path: Seq<char>) -> Result<Seq<char>, Seq<char>> {
    let p = without_white_space(path);
    if is_simple_path(p) {
        Ok(p)
    } else {
        Err("Expected a simple ASCII Rust path, got "@ + debug_quoted(p))
    }
}

/// Whether an outcome with `String`s has the given characters.
pub open spec fn text_outcome(r: Result<String, String>, s: Result<Seq<char>, Seq<char>>) -> bool {
    match (r, s) {
        (Ok(a), Ok(b)) => a@ == b,
        (Err(a), Err(b)) => a@ == b,
        _ => false,
    }
}

fn is_identifier_range(p: &[char], a: usize, b: usize) -> (r: bool)
    requires
        a <= b <= p.len(),
    ensures
        r == is_identifier(p@.subrange(a as int, b as int)),
{
    let ghost seg = p@.subrange(a as int, b as int);
    if a == b {
        return false;
    }
    if !(ascii_letter(p[a]) || p[a] == '_') {
        return false;
    }
    let mut k = a + 1;
    while k < b
        invariant
            a < k <= b <= p.len(),
            seg == p@.subrange(a as int, b as int),
            forall|x: int| 1 <= x < k - a ==> is_ascii_letter_or_digit(#[trigger] seg[x]) || seg[x] == '_',
        decreases b - k,
    {
        if !(ascii_letter_or_digit(p[k]) || p[k] == '_') {
            assert(seg[k - a] == p@[k as int]);
            return false;
        }
        k = k + 1;
    }
    true
}

proof fn lemma_skip_occurs(s: Seq<char>, pos: int, k: int)
    requires
        0 <= pos <= s.len(),
    ensures
        occurs_at(s.skip(pos), separator(), k) == (k >= 0 && occurs_at(s, separator(), k + pos)),
{
    lemma_occurs_skip(s, separator(), pos, k);
}

/// Occurrences in a suffix are occurrences in the whole text, shifted.
pub proof fn lemma_occurs_skip(s: Seq<char>, p: Seq<char>, pos: int, k: int)
    requires
        0 <= pos <= s.len(),
    ensures
        occurs_at(s.skip(pos), p, k) == (k >= 0 && occurs_at(s, p, k + pos)),
{
    if k >= 0 && k + p.len() <= s.len() - pos {
        assert(s.skip(pos).subrange(k, k + p.len()) == s.subrange(k + pos, k + pos + p.len()));
    }
}

/// Whether `p` is a simple path.
fn simple_path(p: &[char]) -> (r: bool)
    ensures
        r == is_simple_path(p@),
{
    let sep = chars_of("::");
    proof {
        reveal_strlit("::");
    }
    assert(sep@ == separator());
    let mut pos: usize = 0;
    let ghost mut done: Seq<Seq<char>> = seq![];
    assert(p@.skip(0) == p@);
    loop
        invariant
            pos <= p.len(),
            sep@ == separator(),
            path_segments(p@) == done + path_segments(p@.skip(pos as int)),
            forall|i: int| 0 <= i < done.len() ==> is_identifier(#[trigger] done[i]),
        decreases p.len() - pos,
    {
        let ghost rest = p@.skip(pos as int);
        let next = find_text(p, &sep, pos);
        let end = match next {
            Some(i) => i,
            None => p.len(),
        };
        proof {
            let q = separator_at(rest);
            match next {
                Some(i) => {
                    assert forall|k: int| 0 <= k < i - pos implies !#[trigger] q(k) by {
                        lemma_skip_occurs(p@, pos as int, k);
                    }
                    lemma_skip_occurs(p@, pos as int, i - pos);
                    lemma_first_in(0, rest.len() as int, q, i - pos);
                    assert(rest.take(i - pos) == p@.subrange(pos as int, i as int));
                    assert(rest.skip(i - pos + 2) == p@.skip(i + 2));
                },
                None => {
                    assert forall|k: int| 0 <= k < rest.len() implies !#[trigger] q(k) by {
                        lemma_skip_occurs(p@, pos as int, k);
                    }
                    lemma_first_in(0, rest.len() as int, q, rest.len() as int);
                    assert(rest == p@.subrange(pos as int, p.len() as int));
                },
            }
        }
        let ok = is_identifier_range(p, pos, end);
        if !ok {
            proof {
                let all = path_segments(p@);
                assert(all[done.len() as int] == p@.subrange(pos as int, end as int));
            }
            return false;
        }
        match next {
            Some(i) => {
                proof {
                    let seg = p@.subrange(pos as int, i as int);
                    assert(done.push(seg) + path_segments(p@.skip(i + 2)) == done + path_segments(
                        rest,
                    ));
                    done = done.push(seg);
                }
                pos = i + 2;
            },
            None => {
                proof {
                    let seg = p@.subrange(pos as int, p.len() as int);
                    let all = path_segments(p@);
                    assert(all == done.push(seg));
                    assert forall|x: int| 0 <= x < all.len() implies is_identifier(#[trigger] all[x]) by {
                        if x < done.len() {
                            assert(all[x] == done[x]);
                        }
                    }
                }
                return true;
            },
        }
    }
}

/// `path` without whitespace, which must then be a simple path of ASCII
/// identifiers separated by `::` (see `normalized_spec`).
pub fn normalized_path(path: &str) -> (r: Result<String, String>)
    ensures
        text_outcome(r, normalized_spec(path@)),
{
    let cs = chars_of(path);
    let mut p: Vec<char> = Vec::new();
    let mut i: usize = 0;
    while i < cs.len()
        invariant
            i <= cs@.len(),
            cs@ == path@,
            p@ == without_white_space(cs@.take(i as int)),
        decreases cs.len() - i,
    {
        if !white_space(cs[i]) {
            p.push(cs[i]);
        }
        assert(cs@.take(i + 1).drop_last() == cs@.take(i as int));
        i = i + 1;
    }
    assert(cs@.take(cs.len() as int) == cs@);
    if simple_path(&p) {
        Ok(string_of(&p))
    } else {
        let mut out = chars_of("Expected a simple ASCII Rust path, got ");
        let s = string_of(&p);
        push_debug(&mut out, s.as_str());
        Err(string_of(&out))
    }
}

/// The regular expression that matches an import of `path` and its
/// children: a `crate::` path matches the same path below any module.
pub open spec fn import_pattern_spec(path: Seq<char>) -> Result<Seq<char>, Seq<char>> {
    match normalized_spec(path) {
        Err(e) => Err(e),
        Ok(p) => if has_prefix(p, "crate::"@) {
            Ok("(^|::)"@ + p.skip(7) + "(::|$)"@)
        } else {
            Ok("^"@ + p + "(::|$)"@)
        },
    }
}

/// The pattern for imports of `path` (see `import_pattern_spec`).
pub fn import_pattern(path: &str) -> (r: Result<String, String>)
    ensures
        text_outcome(r, import_pattern_spec(path@)),
{
    let p = match normalized_path(path) {
        Ok(p) => p,
        Err(e) => {
            return Err(e);
        },
    };
    let cs = chars_of(p.as_str());
    let prefix = chars_of("crate::");
    proof {
        reveal_strlit("crate::");
    }
    if starts_with_chars(&cs, &prefix) {
        let mut out = chars_of("(^|::)");
        let local = copy_range(&cs, 7, cs.len());
        assert(local@ == cs@.skip(7));
        push_slice(&mut out, &local);
        push_text(&mut out, "(::|$)");
        Ok(string_of(&out))
    } else {
        let mut out = chars_of("^");
        push_slice(&mut out, &cs);
        push_text(&mut out, "(::|$)");
        Ok(string_of(&out))
    }
}

/// The denied patterns of a rule, each quoted, separated by `, `; the first
/// path that is not simple gives the error.
pub open spec fn denied_list(paths: Seq<Seq<char>>) -> Result<Seq<char>, Seq<char>>
    decreases paths.len(),
{
    if paths.len() == 0 {
        Ok(seq![])
    } else {
        match denied_list(paths.drop_last()) {
            Err(e) => Err(e),
            Ok(d) => match import_pattern_spec(paths.last()) {
                Err(e) => Err(e),
                Ok(p) => Ok(if paths.len() == 1 {
                    debug_quoted(p)
                } else {
                    d + ", "@ + debug_quoted(p)
                }),
            },
        }
    }
}

/// The module selector pattern of `module`: the module and its children.
pub open spec fn module_pattern(module: Seq<char>) -> Seq<char> {
    "^"@ + module + "(::|$)"@
}

/// The cargo-pup configuration of an import rule, with error severity.
pub open spec fn configuration_spec(rule: RuleView) -> Result<Seq<char>, Seq<char>> {
    match normalized_spec(rule.module) {
        Err(e) => Err(e),
        Ok(m) => match normalized_spec(rule.name) {
            Err(e) => Err(e),
            Ok(_) => if rule.deny_imports.len() == 0 {
                Err("An architecture rule must forbid at least one import"@)
            } else {
                match denied_list(rule.deny_imports) {
                    Err(e) => Err(e),
                    Ok(d) => Ok(
                        "(lints: [Module((name: "@ + debug_quoted(rule.name) + ", matches: Module("@
                            + debug_quoted(module_pattern(m))
                            + "), rules: [RestrictImports(allowed_only: None, denied: Some(["@ + d
                            + "]), severity: Error)]))])\n"@,
                    ),
                }
            },
        },
    }
}

/// The pattern of `module` (see `module_pattern`), as a string.
fn module_pattern_of(module: &str) -> (r: String)
    ensures
        r@ == module_pattern(module@),
{
    let mut out = chars_of("^");
    push_text(&mut out, module);
    push_text(&mut out, "(::|$)");
    string_of(&out)
}

/// The cargo-pup configuration of an import rule (see `configuration_spec`).
pub fn configuration(rule: &Rule) -> (r: Result<String, String>)
    ensures
        text_outcome(r, configuration_spec(rule@)),
{
    let module = match normalized_path(rule.module) {
        Ok(m) => m,
        Err(e) => {
            return Err(e);
        },
    };
    match normalized_path(rule.name) {
        Ok(_) => {},
        Err(e) => {
            return Err(e);
        },
    }
    assert(normalized_spec(rule@.name) is Ok);
    let deny = rule.deny_imports;
    let ghost dv = deny@.map_values(|a: &str| a@);
    assert(dv == rule@.deny_imports);
    if deny.len() == 0 {
        return Err(owned("An architecture rule must forbid at least one import"));
    }
    let mut denied: Vec<char> = Vec::new();
    let mut i: usize = 0;
    assert(dv.take(0) == Seq::<Seq<char>>::empty());
    while i < deny.len()
        invariant
            i <= deny@.len(),
            dv == deny@.map_values(|a: &str| a@),
            dv == rule@.deny_imports,
            dv.len() > 0,
            normalized_spec(rule@.module) == Ok::<Seq<char>, Seq<char>>(module@),
            normalized_spec(rule@.name) is Ok,
            denied_list(dv.take(i as int)) == Ok::<Seq<char>, Seq<char>>(denied@),
        decreases deny.len() - i,
    {
        let pattern = match import_pattern(deny[i]) {
            Ok(p) => p,
            Err(e) => {
                proof {
                    assert(dv.take(i + 1).drop_last() == dv.take(i as int));
                    assert(dv.take(i + 1).last() == deny@[i as int]@);
                    lemma_denied_list_prefix_error(dv, i as int + 1);
                }
                return Err(e);
            },
        };
        if i > 0 {
            push_text(&mut denied, ", ");
        }
        push_debug(&mut denied, pattern.as_str());
        proof {
            assert(dv.take(i + 1).drop_last() == dv.take(i as int));
            assert(dv.take(i + 1).last() == deny@[i as int]@);
            if i == 0 {
                assert(denied_list(dv.take(0)) == Ok::<Seq<char>, Seq<char>>(seq![]));
            }
        }
        i = i + 1;
    }
    assert(dv.take(deny.len() as int) == dv);
    let mut out = chars_of("(lints: [Module((name: ");
    push_debug(&mut out, rule.name);
    push_text(&mut out, ", matches: Module(");
    let pattern = module_pattern_of(module.as_str());
    push_debug(&mut out, pattern.as_str());
    push_text(
        &mut out,
        "), rules: [RestrictImports(allowed_only: None, denied: Some([",
    );
    push_slice(&mut out, &denied);
    push_text(&mut out, "]), severity: Error)]))])\n");
    Ok(string_of(&out))
}

/// An error among the first `n` paths is the error of the whole list.
proof fn lemma_denied_list_prefix_error(paths: Seq<Seq<char>>, n: int)
    requires
        0 <= n <= paths.len(),
        denied_list(paths.take(n)) is Err,
    ensures
        denied_list(paths) == denied_list(paths.take(n)),
    decreases paths.len() - n,
{
    if n < paths.len() {
        assert(paths.take(n + 1).drop_last() == paths.take(n));
        lemma_denied_list_prefix_error(paths, n + 1);
    } else {
        assert(paths.take(n) == paths);
    }
}


// ---------------------------------------------------------------------------
// Lints
// ---------------------------------------------------------------------------

/// The name of a rule.
pub open spec fn lint_name(l: Lint) -> Seq<char> {
    match l {
        Lint::Imports(rule) => rule.name@,
        Lint::Visibility(rule) => rule.name@,
    }
}

/// The cargo-pup requirement for a visibility.
pub open spec fn visibility_requirement(v: Visibility) -> Seq<char> {
    match v {
        Visibility::Private => "MustBePrivate(Error)"@,
        Visibility::Public => "MustBePublic(Error)"@,
        Visibility::PubCrate => "MustBePubCrate(Error)"@,
    }
}

/// The requirement of a coverage probe: a name no Rust item has, so the
/// probe fails exactly when its selector matches something.
pub open spec fn probe_requirement() -> Seq<char> {
    "MustBeNamed(\"^$\", Error)"@
}

/// The configuration of a rule, or of its coverage probe: the probe uses the
/// same selector under the name `coverage_<name>`.
pub open spec fn lint_config_spec(l: Lint, coverage: bool) -> Result<Seq<char>, Seq<char>> {
    let name = if coverage {
        "coverage_"@ + lint_name(l)
    } else {
        lint_name(l)
    };
    match normalized_spec(lint_name(l)) {
        Err(e) => Err(e),
        Ok(_) => match l {
            Lint::Imports(rule) => match configuration_spec(rule@) {
                Err(e) => Err(e),
                Ok(actual) => if !coverage {
                    Ok(actual)
                } else {
                    match normalized_spec(rule.module@) {
                        Err(e) => Err(e),
                        Ok(m) => Ok(
                            "(lints: [Module((name: "@ + debug_quoted(name) + ", matches: Module("@
                                + debug_quoted(module_pattern(m)) + "), rules: ["@
                                + probe_requirement() + "]))])\n"@,
                        ),
                    }
                },
            },
            Lint::Visibility(rule) => match normalized_spec(rule.struct_name@) {
                Err(e) => Err(e),
                Ok(st) => if contains_text(st, "::"@) {
                    Err("Struct selectors accept a short name, not a type path"@)
                } else {
                    Ok(
                        "(lints: [Struct((name: "@ + debug_quoted(name) + ", matches: Name("@
                            + debug_quoted("^"@ + st + "$"@) + "), rules: ["@ + if coverage {
                            probe_requirement()
                        } else {
                            visibility_requirement(rule.visibility)
                        } + "]))])\n"@,
                    )
                },
            },
        },
    }
}

impl<'a> Lint<'a> {
    /// The rule's name.
    pub fn name(self) -> (r: &'static str)
        ensures
            r@ == lint_name(self),
    {
        match self {
            Lint::Imports(rule) => rule.name,
            Lint::Visibility(rule) => rule.name,
        }
    }

    /// The configuration of the rule, or of its coverage probe (see
    /// `lint_config_spec`).
    pub fn config(self, coverage: bool) -> (r: Result<String, String>)
        ensures
            text_outcome(r, lint_config_spec(self, coverage)),
    {
        match normalized_path(self.name()) {
            Ok(_) => {},
            Err(e) => {
                return Err(e);
            },
        }
        let mut name = if coverage {
            chars_of("coverage_")
        } else {
            Vec::new()
        };
        push_text(&mut name, self.name());
        let name = string_of(&name);
        match self {
            Lint::Imports(rule) => {
                let actual = match configuration(rule) {
                    Ok(a) => a,
                    Err(e) => {
                        return Err(e);
                    },
                };
                if !coverage {
                    return Ok(actual);
                }
                let module = match normalized_path(rule.module) {
                    Ok(m) => m,
                    Err(e) => {
                        return Err(e);
                    },
                };
                let mut out = chars_of("(lints: [Module((name: ");
                push_debug(&mut out, name.as_str());
                push_text(&mut out, ", matches: Module(");
                let pattern = module_pattern_of(module.as_str());
                push_debug(&mut out, pattern.as_str());
                push_text(&mut out, "), rules: [");
                push_text(&mut out, "MustBeNamed(\"^$\", Error)");
                push_text(&mut out, "]))])\n");
                Ok(string_of(&out))
            },
            Lint::Visibility(rule) => {
                let structure = match normalized_path(rule.struct_name) {
                    Ok(s) => s,
                    Err(e) => {
                        return Err(e);
                    },
                };
                if str_contains(structure.as_str(), "::") {
                    return Err(owned("Struct selectors accept a short name, not a type path"));
                }
                let mut out = chars_of("(lints: [Struct((name: ");
                push_debug(&mut out, name.as_str());
                push_text(&mut out, ", matches: Name(");
                let mut selector = chars_of("^");
                push_text(&mut selector, structure.as_str());
                push_text(&mut selector, "$");
                let selector = string_of(&selector);
                push_debug(&mut out, selector.as_str());
                push_text(&mut out, "), rules: [");
                if coverage {
                    push_text(&mut out, "MustBeNamed(\"^$\", Error)");
                } else {
                    match rule.visibility {
                        Visibility::Private => push_text(&mut out, "MustBePrivate(Error)"),
                        Visibility::Public => push_text(&mut out, "MustBePublic(Error)"),
                        Visibility::PubCrate => push_text(&mut out, "MustBePubCrate(Error)"),
                    }
                }
                push_text(&mut out, "]))])\n");
                Ok(string_of(&out))
            },
        }
    }

    /// The words that cargo-pup's denial of this rule contains.
    pub fn denial_tokens(self) -> (r: Vec<String>)
        ensures
            r@.map_values(|s: String| s@) == match self {
                Lint::Imports(_) => seq!["Use of module"@, "is denied"@],
                Lint::Visibility(rule) => seq![
                    "Struct '"@ + rule.struct_name@ + "'"@,
                    visibility_words(rule.visibility),
                ],
            },
    {
        let mut r: Vec<String> = Vec::new();
        match self {
            Lint::Imports(_) => {
                r.push(owned("Use of module"));
                r.push(owned("is denied"));
            },
            Lint::Visibility(rule) => {
                let mut first = chars_of("Struct '");
                push_text(&mut first, rule.struct_name);
                push_text(&mut first, "'");
                r.push(string_of(&first));
                let words = match rule.visibility {
                    Visibility::Private => owned("must be private"),
                    Visibility::Public => owned("must be pub"),
                    Visibility::PubCrate => owned("must be pub(crate)"),
                };
                r.push(words);
            },
        }
        assert(r@.map_values(|s: String| s@) =~= match self {
            Lint::Imports(_) => seq!["Use of module"@, "is denied"@],
            Lint::Visibility(rule) => seq![
                "Struct '"@ + rule.struct_name@ + "'"@,
                visibility_words(rule.visibility),
            ],
        });
        r
    }
}

/// What cargo-pup says of a struct with the wrong visibility.
pub open spec fn visibility_words(v: Visibility) -> Seq<char> {
    match v {
        Visibility::Private => "must be private"@,
        Visibility::Public => "must be pub"@,
        Visibility::PubCrate => "must be pub(crate)"@,
    }
}


// ---------------------------------------------------------------------------
// Pinned tool versions
// ---------------------------------------------------------------------------

/// The value that a `key = value` line gives for `key`, both sides trimmed.
pub open spec fn pin_of(line: Seq<char>, key: Seq<char>) -> Option<Seq<char>> {
    let i = first_where(line, is_char('='));
    if i >= 0 && trimmed(line.take(i)) == key {
        Some(trimmed(line.skip(i + 1)))
    } else {
        None
    }
}

/// The values for `key`, line by line.
pub open spec fn pin_values(ls: Seq<Seq<char>>, key: Seq<char>) -> Seq<Seq<char>>
    decreases ls.len(),
{
    if ls.len() == 0 {
        seq![]
    } else {
        let r = pin_values(ls.drop_last(), key);
        match pin_of(ls.last(), key) {
            Some(v) => r.push(v),
            None => r,
        }
    }
}

/// A character allowed in a pinned version.
pub open spec fn is_pin_char(c: char) -> bool {
    is_ascii_letter_or_digit(c) || c == '-' || c == '.' || c == '_'
}

/// The pinned value of `key`: exactly one line must give it, as a quoted,
/// non-empty string of letters, digits, `-`, `.` and `_`.
pub open spec fn setting_spec(text: Seq<char>, key: Seq<char>) -> Result<Seq<char>, Seq<char>> {
    let vs = pin_values(text_lines(text), key);
    if vs.len() == 0 {
        Err("Missing pin: "@ + key)
    } else if vs.len() > 1 {
        Err("Duplicate pin: "@ + key)
    } else {
        let v = vs[0];
        if !(v.len() >= 2 && v[0] == '"' && v.last() == '"') {
            Err("Pin must be a quoted string: "@ + key)
        } else {
            let inner = v.subrange(1, v.len() - 1);
            if inner.len() == 0 || !(forall|k: int| 0 <= k < inner.len() ==> is_pin_char(#[trigger] inner[k])) {
                Err("Invalid pin: "@ + key)
            } else {
                Ok(inner)
            }
        }
    }
}

fn pin_of_line(line: &[char], key: &[char]) -> (r: Option<Vec<char>>)
    ensures
        match (r, pin_of(line@, key@)) {
            (Some(v), Some(w)) => v@ == w,
            (None, None) => true,
            _ => false,
        },
{
    let i = find_char(line, 0, '=');
    assert(line@.skip(0) == line@);
    if i == line.len() {
        return None;
    }
    let name = trim_chars(&copy_range(line, 0, i));
    assert(line@.subrange(0, i as int) == line@.take(i as int));
    if !chars_eq(&name, key) {
        return None;
    }
    let value = trim_chars(&copy_range(line, i + 1, line.len()));
    assert(line@.subrange(i + 1, line.len() as int) == line@.skip(i + 1));
    Some(value)
}

fn msg_with(prefix: &str, key: &str) -> (r: String)
    ensures
        r@ == prefix@ + key@,
{
    let mut out = chars_of(prefix);
    push_text(&mut out, key);
    string_of(&out)
}

/// The pinned value of `key` in `text` (see `setting_spec`).
pub fn setting(text: &str, key: &str) -> (r: Result<String, String>)
    ensures
        text_outcome(r, setting_spec(text@, key@)),
{
    let t = chars_of(text);
    let k = chars_of(key);
    let mut values: Vec<Vec<char>> = Vec::new();
    let mut pos: usize = 0;
    let ghost mut done: Seq<Seq<char>> = seq![];
    assert(t@.skip(0) == t@);
    while pos < t.len()
        invariant
            pos <= t.len(),
            t@ == text@,
            k@ == key@,
            text_lines(t@) == done + text_lines(t@.skip(pos as int)),
            values@.map_values(|v: Vec<char>| v@) == pin_values(done, key@),
        decreases t.len() - pos,
    {
        let (line, next) = read_line(&t, pos);
        let found = pin_of_line(&line, &k);
        proof {
            assert(done.push(line@).drop_last() == done);
            assert(done.push(line@) + text_lines(t@.skip(next as int)) == done + (seq![line@]
                + text_lines(t@.skip(next as int))));
        }
        match found {
            Some(v) => {
                proof {
                    assert(values@.push(v).map_values(|v: Vec<char>| v@) == values@.map_values(
                        |v: Vec<char>| v@,
                    ).push(v@));
                }
                values.push(v);
            },
            None => {},
        }
        proof {
            done = done.push(line@);
        }
        pos = next;
    }
    assert(t@.skip(t.len() as int) == Seq::<char>::empty());
    assert(text_lines(Seq::<char>::empty()) == Seq::<Seq<char>>::empty());
    assert(done + Seq::<Seq<char>>::empty() == done);
    if values.len() == 0 {
        return Err(msg_with("Missing pin: ", key));
    }
    if values.len() > 1 {
        return Err(msg_with("Duplicate pin: ", key));
    }
    let v = &values[0];
    let n = v.len();
    if !(n >= 2 && v[0] == '"' && v[n - 1] == '"') {
        return Err(msg_with("Pin must be a quoted string: ", key));
    }
    let inner = copy_range(v, 1, n - 1);
    let mut ok = inner.len() > 0;
    let mut i: usize = 0;
    while i < inner.len()
        invariant
            i <= inner@.len(),
            ok == (inner@.len() > 0 && forall|x: int| 0 <= x < i ==> is_pin_char(#[trigger] inner@[x])),
        decreases inner.len() - i,
    {
        let c = inner[i];
        if !(ascii_letter_or_digit(c) || c == '-' || c == '.' || c == '_') {
            ok = false;
        }
        i = i + 1;
    }
    if !ok {
        return Err(msg_with("Invalid pin: ", key));
    }
    Ok(string_of(&inner))
}

// ---------------------------------------------------------------------------
// Terminal colours
// ---------------------------------------------------------------------------

/// The escape character that starts a terminal control sequence.
pub open spec fn escape() -> char {
    '\u{1b}'
}

/// A character that ends a control sequence.
pub open spec fn is_final_char(c: char) -> bool {
    '@' <= c <= '~'
}

/// What follows a control sequence: the text after its first final character,
/// or nothing when none comes.
pub open spec fn after_sequence(s: Seq<char>) -> Seq<char>
    decreases s.len(),
{
    if s.len() == 0 {
        seq![]
    } else if is_final_char(s[0]) {
        s.skip(1)
    } else {
        after_sequence(s.skip(1))
    }
}

pub proof fn lemma_after_sequence_len(s: Seq<char>)
    ensures
        after_sequence(s).len() <= s.len(),
    decreases s.len(),
{
    if s.len() > 0 && !is_final_char(s[0]) {
        lemma_after_sequence_len(s.skip(1));
    }
}

/// `s` without its control sequences: an escape, `[`, and everything up to
/// and including the next final character.
pub open spec fn strip_ansi_spec(s: Seq<char>) -> Seq<char>
    decreases s.len(),
{
    if s.len() == 0 {
        seq![]
    } else if s[0] == escape() && s.len() > 1 && s[1] == '[' {
        proof {
            lemma_after_sequence_len(s.skip(2));
        }
        strip_ansi_spec(after_sequence(s.skip(2)))
    } else {
        seq![s[0]] + strip_ansi_spec(s.skip(1))
    }
}

proof fn lemma_after_sequence_at(t: Seq<char>, from: int, j: int)
    requires
        0 <= from <= j <= t.len(),
        forall|k: int| from <= k < j ==> !is_final_char(#[trigger] t[k]),
        j < t.len() ==> is_final_char(t[j]),
    ensures
        after_sequence(t.skip(from)) == if j < t.len() {
            t.skip(j + 1)
        } else {
            Seq::<char>::empty()
        },
    decreases j - from,
{
    let s = t.skip(from);
    if from == j {
        if j < t.len() {
            assert(s[0] == t[j]);
            assert(s.skip(1) == t.skip(j + 1));
        } else {
            assert(s.len() == 0);
        }
    } else {
        assert(s[0] == t[from]);
        assert(s.skip(1) == t.skip(from + 1));
        lemma_after_sequence_at(t, from + 1, j);
    }
}

fn strip_chars(t: &[char]) -> (r: Vec<char>)
    ensures
        r@ == strip_ansi_spec(t@),
{
    let mut out: Vec<char> = Vec::new();
    let mut i: usize = 0;
    assert(t@.skip(0) == t@);
    while i < t.len()
        invariant
            i <= t.len(),
            strip_ansi_spec(t@) == out@ + strip_ansi_spec(t@.skip(i as int)),
        decreases t.len() - i,
    {
        let ghost s = t@.skip(i as int);
        if t[i] == '\u{1b}' && i + 1 < t.len() && t[i + 1] == '[' {
            let mut j = i + 2;
            while j < t.len() && !('@' <= t[j] && t[j] <= '~')
                invariant
                    i + 2 <= j <= t.len(),
                    forall|k: int| i + 2 <= k < j ==> !is_final_char(#[trigger] t@[k]),
                decreases t.len() - j,
            {
                j = j + 1;
            }
            proof {
                assert(s[0] == t@[i as int]);
                assert(s[1] == t@[i + 1]);
                assert(s.skip(2) == t@.skip(i + 2));
                lemma_after_sequence_at(t@, i + 2, j as int);
            }
            if j < t.len() {
                i = j + 1;
            } else {
                assert(t@.skip(t.len() as int) == Seq::<char>::empty());
                i = t.len();
            }
        } else {
            proof {
                assert(s[0] == t@[i as int]);
                assert(s.skip(1) == t@.skip(i + 1));
                assert(out@.push(t@[i as int]) + strip_ansi_spec(t@.skip(i + 1)) == out@ + (seq![
                    t@[i as int],
                ] + strip_ansi_spec(t@.skip(i + 1))));
            }
            out.push(t[i]);
            i = i + 1;
        }
    }
    assert(t@.skip(t.len() as int) == Seq::<char>::empty());
    out
}

/// `text` without terminal control sequences (see `strip_ansi_spec`).
pub fn strip_ansi(text: &str) -> (r: String)
    ensures
        r@ == strip_ansi_spec(text@),
{
    string_of(&strip_chars(&chars_of(text)))
}


// ---------------------------------------------------------------------------
// Judging a run
// ---------------------------------------------------------------------------

/// A line that starts an error or a warning.
pub open spec fn is_diagnostic_line(l: Seq<char>) -> bool {
    has_prefix(l, "error:"@) || has_prefix(l, "error["@) || has_prefix(l, "warning:"@) || has_prefix(
        l,
        "warning["@,
    )
}

/// The finished diagnostic blocks of some lines, and the block still open.
pub open spec fn block_split(ls: Seq<Seq<char>>) -> (Seq<Seq<char>>, Seq<char>)
    decreases ls.len(),
{
    if ls.len() == 0 {
        (seq![], seq![])
    } else {
        let (bs, cur) = block_split(ls.drop_last());
        let l = ls.last();
        if is_diagnostic_line(l) {
            (bs.push(cur), l + seq!['\n'])
        } else {
            (bs, cur + l + seq!['\n'])
        }
    }
}

/// The output split into blocks, each starting at an error or warning line
/// (the first block holds what comes before the first one).
pub open spec fn output_blocks(o: Seq<char>) -> Seq<Seq<char>> {
    let (bs, cur) = block_split(text_lines(strip_ansi_spec(o)));
    bs.push(cur)
}

/// A block that is an error of the given rule and holds every token.
pub open spec fn names_rule(b: Seq<char>, rule: Seq<char>, tokens: Seq<Seq<char>>) -> bool {
    &&& has_prefix(b, "error:"@) || has_prefix(b, "error["@)
    &&& contains_text(b, "Applied by cargo-pup rule '"@ + rule + "'."@) || has_prefix(
        b,
        "error: "@ + rule + ":"@,
    )
    &&& forall|k: int| 0 <= k < tokens.len() ==> contains_text(b, #[trigger] tokens[k])
}

/// Whether a run failed with an error of the rule that holds every token:
/// a positive exit code, no compiler crash or panic, and one error block
/// that both names the rule and holds the tokens.
pub open spec fn named_error_spec(code: Option<i32>, o: Seq<char>, rule: Seq<char>, tokens: Seq<
    Seq<char>,
>) -> bool {
    &&& code matches Some(c) && c > 0
    &&& !contains_text(o, "internal compiler error"@)
    &&& !contains_text(o, "panicked at"@)
    &&& exists|k: int| 0 <= k < output_blocks(o).len() && names_rule(#[trigger] output_blocks(o)[k], rule, tokens)
}

fn line_is_diagnostic(l: &[char]) -> (r: bool)
    ensures
        r == is_diagnostic_line(l@),
{
    starts_with_chars(l, &chars_of("error:")) || starts_with_chars(l, &chars_of("error["))
        || starts_with_chars(l, &chars_of("warning:")) || starts_with_chars(
        l,
        &chars_of("warning["),
    )
}

fn block_names_rule(b: &[char], rule: &str, tokens: &[&str]) -> (r: bool)
    ensures
        r == names_rule(b@, rule@, tokens@.map_values(|t: &str| t@)),
{
    let ghost tv = tokens@.map_values(|t: &str| t@);
    if !(starts_with_chars(b, &chars_of("error:")) || starts_with_chars(b, &chars_of("error["))) {
        return false;
    }
    let mut note = chars_of("Applied by cargo-pup rule '");
    push_text(&mut note, rule);
    push_text(&mut note, "'.");
    let mut inline = chars_of("error: ");
    push_text(&mut inline, rule);
    push_text(&mut inline, ":");
    if !(contains_chars(b, &note) || starts_with_chars(b, &inline)) {
        return false;
    }
    let mut i: usize = 0;
    while i < tokens.len()
        invariant
            i <= tokens@.len(),
            tv == tokens@.map_values(|t: &str| t@),
            forall|k: int| 0 <= k < i ==> contains_text(b@, #[trigger] tv[k]),
        decreases tokens.len() - i,
    {
        if !contains_chars(b, &chars_of(tokens[i])) {
            assert(tv[i as int] == tokens@[i as int]@);
            return false;
        }
        i = i + 1;
    }
    true
}

/// Whether the run failed with an error of `rule` holding every token (see
/// `named_error_spec`).
pub fn named_error(code: Option<i32>, output: &str, rule: &str, tokens: &[&str]) -> (r: bool)
    ensures
        r == named_error_spec(code, output@, rule@, tokens@.map_values(|t: &str| t@)),
{
    let ghost tv = tokens@.map_values(|t: &str| t@);
    let positive = match code {
        Some(c) => c > 0,
        None => false,
    };
    if !positive || str_contains(output, "internal compiler error") || str_contains(
        output,
        "panicked at",
    ) {
        return false;
    }
    let t = strip_chars(&chars_of(output));
    let mut blocks: Vec<Vec<char>> = Vec::new();
    let mut block: Vec<char> = Vec::new();
    let mut pos: usize = 0;
    let ghost mut done: Seq<Seq<char>> = seq![];
    assert(t@.skip(0) == t@);
    while pos < t.len()
        invariant
            pos <= t.len(),
            text_lines(t@) == done + text_lines(t@.skip(pos as int)),
            block_split(done) == (blocks@.map_values(|v: Vec<char>| v@), block@),
        decreases t.len() - pos,
    {
        let (line, next) = read_line(&t, pos);
        proof {
            assert(done.push(line@).drop_last() == done);
            assert(done.push(line@) + text_lines(t@.skip(next as int)) == done + (seq![line@]
                + text_lines(t@.skip(next as int))));
        }
        if line_is_diagnostic(&line) {
            let finished = block;
            proof {
                assert(blocks@.push(finished).map_values(|v: Vec<char>| v@) == blocks@.map_values(
                    |v: Vec<char>| v@,
                ).push(finished@));
            }
            blocks.push(finished);
            block = Vec::new();
        }
        push_slice(&mut block, &line);
        block.push('\n');
        proof {
            done = done.push(line@);
        }
        pos = next;
    }
    assert(t@.skip(t.len() as int) == Seq::<char>::empty());
    assert(text_lines(Seq::<char>::empty()) == Seq::<Seq<char>>::empty());
    assert(done + Seq::<Seq<char>>::empty() == done);
    let ghost all = blocks@.map_values(|v: Vec<char>| v@).push(block@);
    assert(all == output_blocks(output@));
    let mut i: usize = 0;
    while i < blocks.len()
        invariant
            i <= blocks@.len(),
            all == blocks@.map_values(|v: Vec<char>| v@).push(block@),
            all == output_blocks(output@),
            code matches Some(c) && c > 0,
            !contains_text(output@, "internal compiler error"@),
            !contains_text(output@, "panicked at"@),
            tv == tokens@.map_values(|t: &str| t@),
            forall|k: int| 0 <= k < i ==> !names_rule(#[trigger] all[k], rule@, tv),
        decreases blocks.len() - i,
    {
        if block_names_rule(&blocks[i], rule, tokens) {
            assert(all[i as int] == blocks@[i as int]@);
            return true;
        }
        assert(all[i as int] == blocks@[i as int]@);
        i = i + 1;
    }
    let last = block_names_rule(&block, rule, tokens);
    proof {
        assert(all[blocks@.len() as int] == block@);
        if !last {
            assert forall|k: int| 0 <= k < all.len() implies !names_rule(#[trigger] all[k], rule@, tv) by {}
        }
    }
    last
}

/// An integer in decimal, with a minus sign when negative.
pub open spec fn int_text(c: int) -> Seq<char> {
    if c < 0 {
        seq!['-'] + decimal((-c) as nat)
    } else {
        decimal(c as nat)
    }
}

/// What `{:?}` prints for an exit code.
pub open spec fn exit_debug(code: Option<i32>) -> Seq<char> {
    match code {
        Some(c) => "Some("@ + int_text(c as int) + ")"@,
        None => "None"@,
    }
}

/// Whether a run shows what was expected: success for `Pass` and
/// `KnownGap`, a named denial for `Denied`, never for `MissingTarget`.
pub open spec fn run_as_expected(expected: Expectation, rule: Seq<char>, code: Option<i32>, o: Seq<char>) -> bool {
    match expected {
        Expectation::Pass | Expectation::KnownGap => code == Some(0i32),
        Expectation::Denied => named_error_spec(code, o, rule, seq!["Use of module"@, "is denied"@]),
        Expectation::MissingTarget => false,
    }
}

/// The failure message for an unexpected run.
pub open spec fn unexpected_message(rule: Seq<char>, code: Option<i32>, o: Seq<char>) -> Seq<char> {
    "Unexpected cargo-pup result for "@ + rule + ", exit="@ + exit_debug(code) + ":\n"@ + o
}

/// Judges a run of an import rule (see `run_as_expected`).
pub fn verify(expected: Expectation, rule: &str, code: Option<i32>, output: &str) -> (r: Result<
    (),
    String,
>)
    ensures
        match r {
            Ok(()) => run_as_expected(expected, rule@, code, output@),
            Err(m) => !run_as_expected(expected, rule@, code, output@) && m@ == unexpected_message(
                rule@,
                code,
                output@,
            ),
        },
{
    let tokens: [&str; 2] = ["Use of module", "is denied"];
    let valid = match expected {
        Expectation::Pass | Expectation::KnownGap => match code {
            Some(c) => c == 0,
            None => false,
        },
        Expectation::Denied => {
            let r = named_error(code, output, rule, &tokens);
            assert(tokens@.map_values(|t: &str| t@) =~= seq!["Use of module"@, "is denied"@]);
            r
        },
        Expectation::MissingTarget => false,
    };
    if valid {
        return Ok(());
    }
    let mut out = chars_of("Unexpected cargo-pup result for ");
    push_text(&mut out, rule);
    push_text(&mut out, ", exit=");
    match code {
        Some(c) => {
            push_text(&mut out, "Some(");
            if c < 0 {
                out.push('-');
                let m: i64 = -(c as i64);
                push_decimal(&mut out, m as u64);
            } else {
                push_decimal(&mut out, c as u64);
            }
            push_text(&mut out, ")");
        },
        None => {
            push_text(&mut out, "None");
        },
    }
    push_text(&mut out, ":\n");
    push_text(&mut out, output);
    Err(string_of(&out))
}

// ---------------------------------------------------------------------------
// Editing fixtures
// ---------------------------------------------------------------------------

/// The indices where `p` occurs in `t`.
pub open spec fn occurrence(t: Seq<char>, p: Seq<char>) -> spec_fn(int) -> bool {
    |i: int| occurs_at(t, p, i)
}

/// The first index where `p` occurs in `t`, or -1.
pub open spec fn first_occurrence(t: Seq<char>, p: Seq<char>) -> int {
    first_in(0, t.len() as int + 1, occurrence(t, p))
}

/// The number of non-overlapping occurrences of a non-empty `p` in `t`,
/// counted from the left as `str::matches` finds them.
pub open spec fn match_count(t: Seq<char>, p: Seq<char>) -> nat
    decreases t.len(),
{
    let i = first_occurrence(t, p);
    proof {
        lemma_first_in_range(0, t.len() as int + 1, occurrence(t, p));
    }
    if p.len() == 0 || i < 0 {
        0
    } else {
        1 + match_count(t.skip(i + p.len()), p)
    }
}

/// `text` with its one occurrence of `before` replaced by `after`; refused
/// when `before` is empty or does not occur exactly once.
pub open spec fn replace_once_spec(text: Seq<char>, before: Seq<char>, after: Seq<char>) -> Result<
    Seq<char>,
    Seq<char>,
> {
    if before.len() == 0 || match_count(text, before) != 1 {
        Err("A mutation must replace exactly one occurrence"@)
    } else {
        let i = first_occurrence(text, before);
        Ok(text.take(i) + after + text.skip(i + before.len()))
    }
}

proof fn lemma_first_occurrence_from(t: Seq<char>, p: Seq<char>, pos: int, r: Option<usize>)
    requires
        0 <= pos <= t.len(),
        match r {
            Some(i) => pos <= i && occurs_at(t, p, i as int) && forall|k: int|
                pos <= k < i ==> !occurs_at(t, p, k),
            None => forall|k: int| pos <= k ==> !occurs_at(t, p, k),
        },
    ensures
        first_occurrence(t.skip(pos), p) == match r {
            Some(i) => i - pos,
            None => -1,
        },
{
    let s = t.skip(pos);
    let q = occurrence(s, p);
    match r {
        Some(i) => {
            assert forall|k: int| 0 <= k < i - pos implies !#[trigger] q(k) by {
                lemma_occurs_skip(t, p, pos, k);
            }
            lemma_occurs_skip(t, p, pos, i - pos);
            lemma_first_in(0, s.len() as int + 1, q, i - pos);
        },
        None => {
            assert forall|k: int| 0 <= k < s.len() as int + 1 implies !#[trigger] q(k) by {
                lemma_occurs_skip(t, p, pos, k);
            }
            lemma_first_in(0, s.len() as int + 1, q, s.len() as int + 1);
        },
    }
}

/// Replaces the one occurrence of `before` (see `replace_once_spec`).
pub fn replace_once(text: &str, before: &str, after: &str) -> (r: Result<String, String>)
    ensures
        text_outcome(r, replace_once_spec(text@, before@, after@)),
{
    let t = chars_of(text);
    let p = chars_of(before);
    if p.len() == 0 {
        return Err(owned("A mutation must replace exactly one occurrence"));
    }
    let mut count: usize = 0;
    let mut pos: usize = 0;
    let mut first: usize = 0;
    assert(t@.skip(0) == t@);
    loop
        invariant
            pos <= t.len(),
            p@.len() > 0,
            t@ == text@,
            p@ == before@,
            count <= pos,
            count == 0 ==> pos == 0,
            match_count(t@, p@) == count + match_count(t@.skip(pos as int), p@),
            count > 0 ==> first_occurrence(t@, p@) == first as int && first + p.len() <= t.len(),
        ensures
            match_count(t@, p@) == count,
            count > 0 ==> first_occurrence(t@, p@) == first as int && first + p.len() <= t.len(),
        decreases t.len() - pos,
    {
        let found = find_text(&t, &p, pos);
        proof {
            lemma_first_occurrence_from(t@, p@, pos as int, found);
        }
        match found {
            Some(i) => {
                proof {
                    assert(t@.skip(pos as int).skip(i - pos + p.len()) == t@.skip(i + p.len()));
                    if count == 0 {
                        assert(pos == 0);
                        assert(t@.skip(0) == t@);
                    }
                }
                if count == 0 {
                    first = i;
                }
                count = count + 1;
                pos = i + p.len();
            },
            None => {
                break;
            },
        }
    }
    if count != 1 {
        return Err(owned("A mutation must replace exactly one occurrence"));
    }
    let mut out = copy_range(&t, 0, first);
    assert(t@.subrange(0, first as int) == t@.take(first as int));
    push_text(&mut out, after);
    let rest = copy_range(&t, first + p.len(), t.len());
    assert(t@.subrange(first + p.len(), t.len() as int) == t@.skip(first + p.len()));
    push_slice(&mut out, &rest);
    Ok(string_of(&out))
}

} // verus!
