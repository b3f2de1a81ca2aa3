//! Ignore rules of a scan: glob patterns, compiled with `globset` so that `*` never crosses
//! a path separator, and matched against paths relative to the root.
use vstd::prelude::*;

use crate::text::{chars_of, concat, string_from};

verus! {

#[verifier::external_type_specification]
#[verifier::external_body]
pub struct ExGlobSet(globset::GlobSet);

#[verifier::external_type_specification]
#[verifier::external_body]
pub struct ExGlobSetBuilder(globset::GlobSetBuilder);

/// Why `globset` refuses a pattern, as its error's message, or nothing when it accepts it.
pub uninterp spec fn glob_rule_error(rule: Seq<char>) -> Option<Seq<char>>;

/// The patterns a builder holds, in the order they were added.
pub uninterp spec fn builder_rules(builder: globset::GlobSetBuilder) -> Seq<Seq<char>>;

/// The patterns a set was built from, in order.
pub uninterp spec fn set_rules(set: globset::GlobSet) -> Seq<Seq<char>>;

/// Whether `GlobSetBuilder::build` succeeds on patterns, each compiled with
/// `literal_separator(true)` and added in this order.
pub uninterp spec fn glob_set_builds(rules: Seq<Seq<char>>) -> bool;

/// Whether a pattern, compiled with `literal_separator(true)`, matches a path written with
/// `/` separators only (`globset` rewrites other separators on some platforms, so a path
/// with `\` is not covered by this name).
pub uninterp spec fn glob_matches(rule: Seq<char>, path: Seq<char>) -> bool;

/// A path without `\\`: its only separator is `/` on every platform.
pub open spec fn slash_separated(path: Seq<char>) -> bool {
    !path.contains('\\')
}

/// `GlobSetBuilder::new`: a builder with no pattern.
#[verifier::external_body]
fn new_glob_set_builder() -> (b: globset::GlobSetBuilder)
    ensures
        builder_rules(b) == Seq::<Seq<char>>::empty(),
{
    globset::GlobSetBuilder::new()
}

/// `GlobBuilder::new(rule).literal_separator(true).build()`, and on success
/// `GlobSetBuilder::add` of the compiled pattern. On a parse error the builder is left as
/// it was and the error's message is returned; whether and why a pattern is refused is
/// named, not stated.
#[verifier::external_body]
fn compile_into(builder: &mut globset::GlobSetBuilder, rule: &str) -> (r: Result<(), String>)
    ensures
        match r {
            Ok(_) => glob_rule_error(rule@) is None && builder_rules(*final(builder)) == builder_rules(*old(builder)).push(
                rule@,
            ),
            Err(m) => glob_rule_error(rule@) == Some(m@) && builder_rules(*final(builder)) == builder_rules(*old(builder)),
        },
{
    match globset::GlobBuilder::new(rule).literal_separator(true).build() {
        Ok(glob) => {
            builder.add(glob);
            Ok(())
        },
        Err(error) => Err(error.to_string()),
    }
}

/// `GlobSetBuilder::build`: the set of the builder's patterns, or the message of the error
/// its regular expressions raised. Whether the build succeeds depends on the patterns
/// alone and is named, not stated.
#[verifier::external_body]
fn build_glob_set(builder: &globset::GlobSetBuilder) -> (r: Result<globset::GlobSet, String>)
    ensures
        r is Ok == glob_set_builds(builder_rules(*builder)),
        r matches Ok(set) ==> set_rules(set) == builder_rules(*builder),
{
    builder.build().map_err(|error| error.to_string())
}

/// `GlobSet::is_match` on a relative path: whether any pattern of the set matches it. The
/// answer is stated for paths without `\\`, which `globset` matches as given on every
/// platform.
#[verifier::external_body]
fn glob_set_matches(set: &globset::GlobSet, relative_path: &str) -> (r: bool)
    ensures
        slash_separated(relative_path@) ==> r == (exists|i: int| 0 <= i < set_rules(*set).len()
            && #[trigger] glob_matches(set_rules(*set)[i], relative_path@)),
{
    set.is_match(relative_path)
}

/// Compiled ignore rules.
pub struct IgnoreRules {
    set: globset::GlobSet,
}

/// A rule that could not be compiled, with the reason.
#[derive(Debug, Clone, PartialEq, Eq)]
pub struct InvalidIgnoreRule {
    pub rule: String,
    pub message: String,
}

/// The position of the first rule that does not compile, if any.
pub open spec fn first_bad_rule(rules: Seq<Seq<char>>, i: int) -> Option<int>
    decreases rules.len() - i,
{
    if i >= rules.len() || i < 0 {
        None
    } else if glob_rule_error(rules[i]) is Some {
        Some(i)
    } else {
        first_bad_rule(rules, i + 1)
    }
}

/// The rules joined by `", "`.
pub open spec fn joined(rules: Seq<Seq<char>>) -> Seq<char>
    decreases rules.len(),
{
    if rules.len() == 0 {
        seq![]
    } else if rules.len() == 1 {
        rules[0]
    } else {
        joined(rules.drop_last()) + ", "@ + rules.last()
    }
}

pub open spec fn rule_texts(rules: Seq<String>) -> Seq<Seq<char>> {
    rules.map_values(|r: String| r@)
}

impl IgnoreRules {
    /// The patterns the rules were compiled from, in order.
    pub closed spec fn patterns(&self) -> Seq<Seq<char>> {
        set_rules(self.set)
    }

    /// Compiles every rule; the first rule that does not compile is reported with its
    /// reason. When every rule compiles but the set cannot be built, the report names all
    /// rules, joined by `", "`.
    pub fn compile(rules: &Vec<String>) -> (r: Result<IgnoreRules, InvalidIgnoreRule>)
        ensures
            first_bad_rule(rule_texts(rules@), 0) matches Some(i) ==> (r matches Err(e) && e.rule@ == rules@[i]@
                && glob_rule_error(rules@[i]@) == Some(e.message@)),
            first_bad_rule(rule_texts(rules@), 0) is None ==> (r is Ok <==> glob_set_builds(rule_texts(rules@))),
            first_bad_rule(rule_texts(rules@), 0) is None ==> (r is Ok || (r matches Err(e) && e.rule@ == joined(
                rule_texts(rules@),
            ))),
            r matches Ok(ig) ==> ig.patterns() == rule_texts(rules@),
    {
        let ghost texts = rule_texts(rules@);
        let mut builder = new_glob_set_builder();
        let mut i: usize = 0;
        while i < rules.len()
            invariant
                i <= rules@.len(),
                texts == rule_texts(rules@),
                first_bad_rule(texts, 0) == first_bad_rule(texts, i as int),
                builder_rules(builder) == texts.subrange(0, i as int),
            decreases rules@.len() - i,
        {
            assert(texts[i as int] == rules@[i as int]@);
            match compile_into(&mut builder, rules[i].as_str()) {
                Ok(()) => {
                    assert(texts.subrange(0, i + 1) =~= texts.subrange(0, i as int).push(texts[i as int]));
                },
                Err(message) => {
                    return Err(InvalidIgnoreRule { rule: string_from(&chars_of(rules[i].as_str())), message });
                },
            }
            i = i + 1;
        }
        assert(first_bad_rule(texts, i as int) is None);
        assert(texts.subrange(0, i as int) =~= texts);
        match build_glob_set(&builder) {
            Ok(set) => Ok(IgnoreRules { set }),
            Err(message) => Err(InvalidIgnoreRule { rule: join_rules(rules), message }),
        }
    }

    /// Whether a path relative to the root matches any rule. Stated for paths written with
    /// `/` separators, which every platform matches alike.
    pub fn is_ignored(&self, relative_path: &str) -> (b: bool)
        ensures
            slash_separated(relative_path@) ==> (b <==> exists|i: int| 0 <= i < self.patterns().len()
                && #[trigger] glob_matches(self.patterns()[i], relative_path@)),
    {
        glob_set_matches(&self.set, relative_path)
    }
}

fn join_rules(rules: &Vec<String>) -> (r: String)
    ensures
        r@ == joined(rule_texts(rules@)),
{
    let mut out: Vec<char> = Vec::new();
    let mut i: usize = 0;
    while i < rules.len()
        invariant
            i <= rules@.len(),
            out@ == joined(rule_texts(rules@).subrange(0, i as int)),
        decreases rules@.len() - i,
    {
        let ghost sub = rule_texts(rules@).subrange(0, i + 1);
        assert(sub.drop_last() =~= rule_texts(rules@).subrange(0, i as int));
        assert(sub.last() == rules@[i as int]@);
        if i == 0 {
            out = chars_of(rules[i].as_str());
        } else {
            out = concat(&concat(&out, &chars_of(", ")), &chars_of(rules[i].as_str()));
        }
        i = i + 1;
    }
    assert(rule_texts(rules@).subrange(0, rules@.len() as int) =~= rule_texts(rules@));
    string_from(&out)
}

} // verus!
