//! Rules, raw and compiled, and the padding of one chapter body.

use crate::pattern::{
    accepted_texts, compile_pattern, pattern_is_valid, pattern_language, pattern_matches,
    regex_is_match,
};
use regex::Regex;
use vstd::prelude::*;

verus! {

/// A rule as a plain value: the pattern's source and the text to add.
pub struct RuleView {
    pub pattern: Seq<char>,
    pub padding: Seq<char>,
}

/// A configuration as a plain value: the header rules and the footer rules,
/// each in configured order.
pub struct ConfigView {
    pub headers: Seq<RuleView>,
    pub footers: Seq<RuleView>,
}

/// The test that a rule's pattern matches `path`.
pub open spec fn matches_path(path: Seq<char>) -> spec_fn(RuleView) -> bool {
    |rule: RuleView| pattern_matches(rule.pattern, path)
}

/// The padding of a rule.
pub open spec fn padding_of() -> spec_fn(RuleView) -> Seq<char> {
    |rule: RuleView| rule.padding
}

/// The rules of `rules` whose pattern matches `path`, in the order of
/// `rules`.
pub open spec fn matching(rules: Seq<RuleView>, path: Seq<char>) -> Seq<RuleView> {
    rules.filter(matches_path(path))
}

/// The paddings of `rules`, one after the other with nothing in between.
pub open spec fn joined(rules: Seq<RuleView>) -> Seq<char> {
    rules.map_values(padding_of()).flatten()
}

/// One more rule at the end of `rules`: where it matches, its padding comes
/// last, and where it does not, nothing changes.
pub proof fn lemma_matching_push(rules: Seq<RuleView>, rule: RuleView, path: Seq<char>)
    ensures
        pattern_matches(rule.pattern, path) ==> {
            &&& matching(rules.push(rule), path) == matching(rules, path).push(rule)
            &&& joined(matching(rules.push(rule), path)) == joined(matching(rules, path))
                + rule.padding
        },
        !pattern_matches(rule.pattern, path) ==> matching(rules.push(rule), path) == matching(
            rules,
            path,
        ),
{
    rules.lemma_filter_push(rule, matches_path(path));
    let found = matching(rules, path);
    assert(found.push(rule).map_values(padding_of()) =~= found.map_values(padding_of()).push(
        rule.padding,
    ));
    found.map_values(padding_of()).lemma_flatten_push(rule.padding);
}

/// The new body of a chapter with body `body` at `path`, or `None` where no
/// rule matches the path.
pub open spec fn evaluate(config: ConfigView, body: Seq<char>, path: Seq<char>) -> Option<
    Seq<char>,
> {
    let heads = matching(config.headers, path);
    let feet = matching(config.footers, path);
    if heads.len() == 0 && feet.len() == 0 {
        None
    } else {
        Some(joined(heads) + body + joined(feet))
    }
}

/// Every pattern of `rules` compiles.
pub open spec fn all_valid(rules: Seq<RuleView>) -> bool {
    forall|i: int| 0 <= i < rules.len() ==> pattern_is_valid(#[trigger] rules[i].pattern)
}

/// `at` is the place of the first rule of `rules` whose pattern does not
/// compile.
pub open spec fn first_invalid(rules: Seq<RuleView>, at: int) -> bool {
    &&& 0 <= at < rules.len()
    &&& !pattern_is_valid(rules[at].pattern)
    &&& all_valid(rules.take(at))
}

/// The pattern that a rule gets where its configuration names none: it
/// matches every path.
pub fn default_regex_str() -> (r: String)
    ensures
        r@ == ".*"@,
{
    String::from_str(".*")
}

/// A rule as configured: a pattern not yet compiled, and the padding.
#[derive(Clone, Debug, PartialEq, Eq, Hash, Default)]
pub struct RawMatcher {
    pub regex: String,
    pub padding: String,
}

impl View for RawMatcher {
    type V = RuleView;

    open spec fn view(&self) -> RuleView {
        RuleView { pattern: self.regex@, padding: self.padding@ }
    }
}

/// Why a configuration was not compiled: the pattern that `regex` rejected,
/// and the error it gave.
#[derive(Debug)]
pub struct CompileError {
    pub pattern: String,
    pub cause: regex::Error,
}

/// A compiled rule. The expression is always the one that `regex` compiled
/// from the pattern kept beside it.
#[derive(Debug)]
pub struct Matcher {
    regex: Regex,
    regex_str: String,
    padding: String,
}

impl View for Matcher {
    type V = RuleView;

    closed spec fn view(&self) -> RuleView {
        RuleView { pattern: self.regex_str@, padding: self.padding@ }
    }
}

impl Matcher {
    #[verifier::type_invariant]
    spec fn compiled_from_pattern(self) -> bool {
        pattern_language(self.regex_str@) == Some(accepted_texts(self.regex))
    }

    /// The source of the rule's pattern.
    pub fn regex_str(&self) -> (r: &str)
        ensures
            r@ == self@.pattern,
    {
        self.regex_str.as_str()
    }

    /// The text that the rule adds.
    pub fn padding(&self) -> (r: &str)
        ensures
            r@ == self@.padding,
    {
        self.padding.as_str()
    }

    /// Whether the rule's pattern finds a match somewhere in `path`.
    pub fn is_match(&self, path: &str) -> (b: bool)
        ensures
            b == pattern_matches(self@.pattern, path@),
    {
        proof {
            use_type_invariant(self);
        }
        regex_is_match(&self.regex, path)
    }
}

impl RawMatcher {
    /// Compiles the rule's pattern. Succeeds exactly where the pattern is
    /// valid, and the compiled rule then has the same pattern and padding;
    /// else the error names the pattern.
    pub fn compile(self) -> (r: Result<Matcher, CompileError>)
        ensures
            r is Ok <==> pattern_is_valid(self.regex@),
            match r {
                Ok(m) => pattern_is_valid(self.regex@) && m@ == self@,
                Err(e) => !pattern_is_valid(self.regex@) && e.pattern@ == self.regex@,
            },
    {
        match compile_pattern(self.regex.as_str()) {
            Ok(regex) => Ok(Matcher { regex, regex_str: self.regex, padding: self.padding }),
            Err(cause) => Err(CompileError { pattern: self.regex, cause }),
        }
    }
}

/// A configuration as configured: rules not yet compiled.
#[derive(Clone, Debug, PartialEq, Eq, Hash)]
pub struct RawConfig {
    pub headers: Vec<RawMatcher>,
    pub footers: Vec<RawMatcher>,
}

impl View for RawConfig {
    type V = ConfigView;

    open spec fn view(&self) -> ConfigView {
        ConfigView {
            headers: self.headers@.map_values(|m: RawMatcher| m@),
            footers: self.footers@.map_values(|m: RawMatcher| m@),
        }
    }
}

impl Default for RawConfig {
    /// The configuration without rules.
    fn default() -> (r: RawConfig)
        ensures
            r@.headers.len() == 0,
            r@.footers.len() == 0,
    {
        RawConfig { headers: Vec::new(), footers: Vec::new() }
    }
}

/// A compiled configuration: the header rules and the footer rules, each in
/// configured order.
#[derive(Debug)]
pub struct Config {
    headers: Vec<Matcher>,
    footers: Vec<Matcher>,
}

impl View for Config {
    type V = ConfigView;

    closed spec fn view(&self) -> ConfigView {
        ConfigView {
            headers: self.headers@.map_values(|m: Matcher| m@),
            footers: self.footers@.map_values(|m: Matcher| m@),
        }
    }
}

/// Compiles the rules of `raws` in order, and stops at the first whose
/// pattern is not valid.
fn compile_rules(raws: &Vec<RawMatcher>) -> (r: Result<Vec<Matcher>, CompileError>)
    ensures
        match r {
            Ok(ms) => {
                &&& all_valid(raws@.map_values(|m: RawMatcher| m@))
                &&& ms@.map_values(|m: Matcher| m@) == raws@.map_values(|m: RawMatcher| m@)
            },
            Err(e) => exists|at: int|
                first_invalid(raws@.map_values(|m: RawMatcher| m@), at) && e.pattern@
                    == #[trigger] raws[at].regex@,
        },
{
    let ghost rules = raws@.map_values(|m: RawMatcher| m@);
    let mut compiled: Vec<Matcher> = Vec::new();
    let mut i: usize = 0;
    while i < raws.len()
        invariant
            0 <= i <= raws.len(),
            rules == raws@.map_values(|m: RawMatcher| m@),
            all_valid(rules.take(i as int)),
            compiled@.map_values(|m: Matcher| m@) == rules.take(i as int),
        decreases raws.len() - i,
    {
        let raw = RawMatcher { regex: raws[i].regex.clone(), padding: raws[i].padding.clone() };
        assert(raw@ == rules[i as int]);
        match raw.compile() {
            Ok(m) => {
                let ghost before = compiled@;
                compiled.push(m);
                assert(compiled@.map_values(|m: Matcher| m@) == rules.take(i + 1)) by {
                    assert(compiled@.map_values(|m: Matcher| m@) =~= before.map_values(
                        |m: Matcher| m@,
                    ).push(m@));
                    assert(rules.take(i + 1) =~= rules.take(i as int).push(rules[i as int]));
                }
                assert(all_valid(rules.take(i + 1))) by {
                    assert forall|j: int| 0 <= j < i + 1 implies pattern_is_valid(
                        #[trigger] rules.take(i + 1)[j].pattern,
                    ) by {
                        if j < i {
                            assert(rules.take(i as int)[j] == rules[j]);
                        }
                    }
                }
            },
            Err(e) => {
                assert(first_invalid(rules, i as int));
                return Err(e);
            },
        }
        i += 1;
    }
    assert(rules.take(i as int) =~= rules);
    Ok(compiled)
}

impl RawConfig {
    /// Compiles every rule, the header rules first, and keeps their order.
    /// Succeeds exactly where every pattern is valid; else the error names
    /// the first pattern that is not, the header rules counted before the
    /// footer rules.
    pub fn compile(self) -> (r: Result<Config, CompileError>)
        ensures
            r is Ok <==> all_valid(self@.headers + self@.footers),
            match r {
                Ok(config) => {
                    &&& all_valid(self@.headers + self@.footers)
                    &&& config@ == self@
                },
                Err(e) => exists|at: int|
                    first_invalid(self@.headers + self@.footers, at) && e.pattern@ == (
                    #[trigger] (self@.headers + self@.footers)[at]).pattern,
            },
    {
        let ghost all = self@.headers + self@.footers;
        let headers = match compile_rules(&self.headers) {
            Ok(ms) => ms,
            Err(e) => {
                proof {
                    let at = choose|at: int|
                        first_invalid(self@.headers, at) && e.pattern@
                            == #[trigger] self.headers[at].regex@;
                    assert(all.take(at) =~= self@.headers.take(at));
                    assert(all[at] == self@.headers[at]);
                    assert(first_invalid(all, at));
                }
                return Err(e);
            },
        };
        let footers = match compile_rules(&self.footers) {
            Ok(ms) => ms,
            Err(e) => {
                proof {
                    let at = choose|at: int|
                        first_invalid(self@.footers, at) && e.pattern@
                            == #[trigger] self.footers[at].regex@;
                    let shifted = self@.headers.len() + at;
                    assert(all[shifted] == self@.footers[at]);
                    assert forall|j: int| 0 <= j < shifted implies pattern_is_valid(
                        #[trigger] all.take(shifted)[j].pattern,
                    ) by {
                        if j < self@.headers.len() {
                            assert(all[j] == self@.headers[j]);
                        } else {
                            assert(all[j] == self@.footers.take(at)[j - self@.headers.len()]);
                        }
                    }
                    assert(first_invalid(all, shifted));
                }
                return Err(e);
            },
        };
        Ok(Config { headers, footers })
    }
}

/// The text of a string.
pub open spec fn text_of() -> spec_fn(String) -> Seq<char> {
    |s: String| s@
}

/// Walks `rules` in order and collects the paddings of those that match
/// `path`.
fn matched_paddings(rules: &Vec<Matcher>, path: &str) -> (found: Vec<String>)
    ensures
        found@.map_values(text_of()) == matching(
            rules@.map_values(|m: Matcher| m@),
            path@,
        ).map_values(padding_of()),
{
    let ghost views = rules@.map_values(|m: Matcher| m@);
    let mut found: Vec<String> = Vec::new();
    let mut i: usize = 0;
    proof {
        reveal(Seq::filter);
        assert(views.take(0).len() == 0);
        assert(found@.map_values(text_of()) =~= matching(views.take(0), path@).map_values(
            padding_of(),
        ));
    }
    while i < rules.len()
        invariant
            0 <= i <= rules.len(),
            views == rules@.map_values(|m: Matcher| m@),
            found@.map_values(text_of()) == matching(views.take(i as int), path@).map_values(
                padding_of(),
            ),
        decreases rules.len() - i,
    {
        let ghost before = found@;
        let ghost seen = matching(views.take(i as int), path@);
        proof {
            assert(views.take(i + 1) =~= views.take(i as int).push(rules[i as int]@));
            views.take(i as int).lemma_filter_push(rules[i as int]@, matches_path(path@));
        }
        if rules[i].is_match(path) {
            found.push(rules[i].padding.clone());
            proof {
                assert(found@.map_values(text_of()) =~= before.map_values(text_of()).push(
                    rules[i as int]@.padding,
                ));
                assert(seen.push(rules[i as int]@).map_values(padding_of()) =~= seen.map_values(
                    padding_of(),
                ).push(rules[i as int]@.padding));
            }
        }
        i += 1;
    }
    assert(views.take(i as int) =~= views);
    found
}

/// Appends every text of `parts` to `body`, in order.
fn append_all(body: &mut String, parts: &Vec<String>)
    ensures
        final(body)@ == old(body)@ + parts@.map_values(text_of()).flatten(),
{
    let ghost start = body@;
    let mut i: usize = 0;
    proof {
        assert(parts@.take(0).map_values(text_of()) =~= Seq::<Seq<char>>::empty());
        assert(start + Seq::<Seq<char>>::empty().flatten() =~= start);
    }
    while i < parts.len()
        invariant
            0 <= i <= parts.len(),
            body@ == start + parts@.take(i as int).map_values(text_of()).flatten(),
        decreases parts.len() - i,
    {
        proof {
            let done = parts@.take(i as int).map_values(text_of());
            assert(parts@.take(i + 1).map_values(text_of()) =~= done.push(parts[i as int]@));
            done.lemma_flatten_push(parts[i as int]@);
            assert(start + (done.flatten() + parts[i as int]@) =~= start + done.flatten()
                + parts[i as int]@);
        }
        body.append(parts[i].as_str());
        i += 1;
    }
    assert(parts@.take(i as int) =~= parts@);
}

/// Puts a body between the paddings that were found for it. With no
/// padding at all the answer is `None`. Else it is the texts of `heads` in
/// order, then `content`, then the texts of `feet` in order, with nothing
/// in between.
pub fn compose(heads: &Vec<String>, content: &str, feet: &Vec<String>) -> (r: Option<String>)
    ensures
        heads@.len() + feet@.len() == 0 ==> r is None,
        heads@.len() + feet@.len() > 0 ==> r is Some && r->Some_0@ == heads@.map_values(
            text_of(),
        ).flatten() + content@ + feet@.map_values(text_of()).flatten(),
{
    if heads.len() == 0 && feet.len() == 0 {
        None
    } else {
        let mut body = String::new();
        append_all(&mut body, heads);
        body.append(content);
        append_all(&mut body, feet);
        assert(body@ =~= heads@.map_values(text_of()).flatten() + content@ + feet@.map_values(
            text_of(),
        ).flatten());
        Some(body)
    }
}

impl Config {
    /// The header rules, in configured order.
    pub fn headers(&self) -> (r: &Vec<Matcher>)
        ensures
            r@.map_values(|m: Matcher| m@) == self@.headers,
    {
        &self.headers
    }

    /// The footer rules, in configured order.
    pub fn footers(&self) -> (r: &Vec<Matcher>)
        ensures
            r@.map_values(|m: Matcher| m@) == self@.footers,
    {
        &self.footers
    }

    /// Pads one chapter body. Where no rule matches `path`, the answer is
    /// `None`. Else it is the paddings of the matching header rules in
    /// configured order, then `content`, then the paddings of the matching
    /// footer rules in configured order.
    pub fn pad_chapter(&self, content: &str, path: &str) -> (r: Option<String>)
        ensures
            match r {
                Some(body) => evaluate(self@, content@, path@) == Some(body@),
                None => evaluate(self@, content@, path@) is None,
            },
    {
        let heads = matched_paddings(&self.headers, path);
        let feet = matched_paddings(&self.footers, path);
        proof {
            assert(heads@.map_values(text_of()).len() == heads@.len());
            assert(feet@.map_values(text_of()).len() == feet@.len());
            assert(matching(self@.headers, path@).map_values(padding_of()).len() == matching(
                self@.headers,
                path@,
            ).len());
            assert(matching(self@.footers, path@).map_values(padding_of()).len() == matching(
                self@.footers,
                path@,
            ).len());
        }
        compose(&heads, content, &feet)
    }
}

} // verus!
