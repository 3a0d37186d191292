//! Ignore rules: which paths the working tree leaves out.

use crate::error::GitError;
use crate::text::{trim, trimmed};
use glob::Pattern;
use std::path::Path;
use vstd::prelude::*;
use vstd::string::StrSliceExecFns;

verus! {

/// One line of an ignore file.
#[derive(PartialEq, Debug, Clone)]
pub enum IgnoreRule {
    /// A pattern: paths that match it are ignored.
    Normal(String),
    /// A pattern behind `!`.
    Negate(String),
    /// A pattern behind a backslash.
    Literal(String),
    /// A comment: what follows `#`.
    Comment(String),
    /// A line that holds white space only.
    Empty,
}

/// The rules of an ignore file, in the order of their lines.
#[derive(PartialEq, Debug, Clone)]
pub struct Ignore {
    pub rules: Vec<IgnoreRule>,
}

/// A rule, as mathematics.
pub enum Rule {
    Normal(Seq<char>),
    Negate(Seq<char>),
    Literal(Seq<char>),
    Comment(Seq<char>),
    Empty,
}

impl View for IgnoreRule {
    type V = Rule;

    open spec fn view(&self) -> Rule {
        match self {
            IgnoreRule::Normal(p) => Rule::Normal(p@),
            IgnoreRule::Negate(p) => Rule::Negate(p@),
            IgnoreRule::Literal(p) => Rule::Literal(p@),
            IgnoreRule::Comment(p) => Rule::Comment(p@),
            IgnoreRule::Empty => Rule::Empty,
        }
    }
}

impl View for Ignore {
    type V = Seq<Rule>;

    open spec fn view(&self) -> Seq<Rule> {
        self.rules@.map_values(|r: IgnoreRule| r@)
    }
}

/// The rule that a line stands for. White space around the line does not
/// count.
pub open spec fn rule_of(line: Seq<char>) -> Rule {
    rule_of_trimmed(trimmed(line))
}

/// The rule that a line without white space around it stands for. A line that
/// starts with `#`, `!` or a backslash is a comment, a negation or a literal
/// of what follows that character; any other line is a pattern, and a line
/// without characters is empty.
pub open spec fn rule_of_trimmed(t: Seq<char>) -> Rule {
    if t.len() == 0 {
        Rule::Empty
    } else if t[0] == '#' {
        Rule::Comment(t.skip(1))
    } else if t[0] == '!' {
        Rule::Negate(t.skip(1))
    } else if t[0] == '\\' {
        Rule::Literal(t.skip(1))
    } else {
        Rule::Normal(t)
    }
}

/// The rules of the lines, without the empty lines and the comments.
pub open spec fn rules_of(lines: Seq<Seq<char>>) -> Seq<Rule>
    decreases lines.len(),
{
    if lines.len() == 0 {
        Seq::empty()
    } else {
        let rule = rule_of(lines.last());
        if rule is Empty || rule is Comment {
            rules_of(lines.drop_last())
        } else {
            rules_of(lines.drop_last()).push(rule)
        }
    }
}

/// How many of the rules are patterns.
pub open spec fn pattern_count(rules: Seq<Rule>) -> nat
    decreases rules.len(),
{
    if rules.len() == 0 {
        0
    } else if rules.last() is Normal {
        pattern_count(rules.drop_last()) + 1
    } else {
        pattern_count(rules.drop_last())
    }
}

/// What the patterns say of a path, given whether each matches it: nothing
/// where none matches, and else what the last pattern says.
pub open spec fn verdict_of(matches: Seq<bool>) -> Option<bool> {
    if forall|i: int| 0 <= i < matches.len() ==> !matches[i] {
        None
    } else {
        Some(matches.last())
    }
}

/// The answers of the patterns, given what came of each: whether it matched,
/// or nothing where it is no valid pattern. There are answers where every
/// pattern is valid, and they are what the patterns gave, in order.
pub open spec fn gathered(outcomes: Seq<Option<bool>>) -> Option<Seq<bool>> {
    if forall|i: int| 0 <= i < outcomes.len() ==> (#[trigger] outcomes[i]) is Some {
        Some(outcomes.map_values(|o: Option<bool>| o->0))
    } else {
        None
    }
}

/// `glob::Pattern`: a compiled pattern. Nothing is known of what is inside it.
#[verifier::external_type_specification]
#[verifier::external_body]
pub struct ExPattern(glob::Pattern);

/// `Pattern::new` of the `glob` crate: the compiled pattern, and nothing
/// where `rule` is no valid pattern. Which texts are valid patterns depends on
/// what the platform takes for a path separator, so nothing is stated of the
/// outcome.
#[verifier::external_body]
fn compile_pattern(rule: &str) -> (pattern: Option<Pattern>) {
    match Pattern::new(rule) {
        Ok(pattern) => Some(pattern),
        Err(_) => None,
    }
}

/// `Pattern::matches_path` of the `glob` crate: whether `path` matches the
/// pattern. The answer depends on what the platform takes for a path
/// separator, so nothing is stated of it.
#[verifier::external_body]
fn pattern_matches(pattern: &Pattern, path: &str) -> (matched: bool) {
    pattern.matches_path(Path::new(path))
}

impl IgnoreRule {
    /// Reads a rule from a line of an ignore file.
    pub fn from_string(line: String) -> (rule: Self)
        ensures
            rule@ == rule_of(line@),
    {
        IgnoreRule::from_trimmed(trim(line.as_str()))
    }

    /// Reads a rule from a line without white space around it.
    pub fn from_trimmed(t: &str) -> (rule: Self)
        ensures
            rule@ == rule_of_trimmed(t@),
    {
        let n = t.unicode_len();
        if n == 0 {
            return IgnoreRule::Empty;
        }
        let first = t.get_char(0);
        assert(t@.subrange(1, n as int) =~= t@.skip(1));
        if first == '#' {
            IgnoreRule::Comment(t.substring_char(1, n).to_owned())
        } else if first == '!' {
            IgnoreRule::Negate(t.substring_char(1, n).to_owned())
        } else if first == '\\' {
            IgnoreRule::Literal(t.substring_char(1, n).to_owned())
        } else {
            IgnoreRule::Normal(t.to_owned())
        }
    }
}

impl Ignore {
    /// The rule set that holds `rules`.
    pub fn new(rules: Vec<IgnoreRule>) -> (ignore: Self)
        ensures
            ignore.rules == rules,
    {
        Ignore { rules }
    }

    /// Adds a rule behind the others.
    pub fn add_rule(&mut self, rule: IgnoreRule)
        ensures
            final(self)@ == old(self)@.push(rule@),
    {
        self.rules.push(rule);
        assert(self@ =~= old(self)@.push(rule@));
    }

    /// Reads the rules of an ignore file from its lines. Empty lines and
    /// comments give no rule.
    pub fn parse_file(lines: Vec<String>) -> (ignore: Self)
        ensures
            ignore@ == rules_of(lines@.map_values(|l: String| l@)),
    {
        let ghost texts = lines@.map_values(|l: String| l@);
        let mut rules: Vec<IgnoreRule> = Vec::new();
        let mut i: usize = 0;
        assert(texts.take(0) =~= Seq::<Seq<char>>::empty());
        while i < lines.len()
            invariant
                i <= lines@.len(),
                texts == lines@.map_values(|l: String| l@),
                rules@.map_values(|r: IgnoreRule| r@) == rules_of(texts.take(i as int)),
            decreases lines@.len() - i,
        {
            assert(texts.take(i + 1).drop_last() =~= texts.take(i as int));
            assert(texts.take(i + 1).last() == lines@[i as int]@);
            let ghost before = rules@.map_values(|r: IgnoreRule| r@);
            match IgnoreRule::from_string(lines[i].clone()) {
                IgnoreRule::Empty => {},
                IgnoreRule::Comment(_) => {},
                rule => {
                    rules.push(rule);
                    assert(rules@.map_values(|r: IgnoreRule| r@) =~= before.push(rule@));
                },
            }
            i += 1;
        }
        assert(texts.take(texts.len() as int) =~= texts);
        Ignore { rules }
    }

    /// What the patterns say of a path, given whether each matches it.
    pub fn verdict(matches: &Vec<bool>) -> (verdict: Option<bool>)
        ensures
            verdict == verdict_of(matches@),
    {
        let mut i: usize = 0;
        while i < matches.len()
            invariant
                i <= matches@.len(),
                forall|j: int| 0 <= j < i ==> !matches@[j],
            decreases matches@.len() - i,
        {
            if matches[i] {
                return Some(matches[matches.len() - 1]);
            }
            i += 1;
        }
        None
    }

    /// The answers of the patterns, given what came of each.
    pub fn gather(outcomes: &Vec<Option<bool>>) -> (answers: Option<Vec<bool>>)
        ensures
            match gathered(outcomes@) {
                Some(g) => answers matches Some(a) && a@ == g,
                None => answers is None,
            },
    {
        let mut answers: Vec<bool> = Vec::new();
        let mut i: usize = 0;
        while i < outcomes.len()
            invariant
                i <= outcomes@.len(),
                answers@.len() == i,
                forall|j: int| 0 <= j < i ==> (#[trigger] outcomes@[j]) == Some(answers@[j]),
            decreases outcomes@.len() - i,
        {
            match outcomes[i] {
                Some(matched) => {
                    answers.push(matched);
                },
                None => {
                    return None;
                },
            }
            i += 1;
        }
        assert(answers@ =~= outcomes@.map_values(|o: Option<bool>| o->0));
        Some(answers)
    }

    /// What comes of matching `path` against each pattern among the rules, in
    /// the order of the rules: whether the pattern matches, or nothing where
    /// it is no valid pattern.
    fn outcomes(&self, path: &str) -> (outcomes: Vec<Option<bool>>)
        ensures
            outcomes@.len() == pattern_count(self@),
    {
        let mut outcomes: Vec<Option<bool>> = Vec::new();
        let mut i: usize = 0;
        assert(self@.take(0) =~= Seq::<Rule>::empty());
        while i < self.rules.len()
            invariant
                i <= self.rules@.len(),
                self@.len() == self.rules@.len(),
                outcomes@.len() == pattern_count(self@.take(i as int)),
            decreases self.rules@.len() - i,
        {
            assert(self@.take(i + 1).drop_last() =~= self@.take(i as int));
            assert(self@.take(i + 1).last() == self.rules@[i as int]@);
            match &self.rules[i] {
                IgnoreRule::Normal(rule) => {
                    match compile_pattern(rule.as_str()) {
                        Some(pattern) => {
                            outcomes.push(Some(pattern_matches(&pattern, path)));
                        },
                        None => {
                            outcomes.push(None);
                        },
                    }
                },
                _ => {},
            }
            i += 1;
        }
        assert(self@.take(self@.len() as int) =~= self@);
        outcomes
    }

    /// Whether each pattern among the rules matches `path`, in the order of
    /// the rules. There is no answer where a pattern is not valid. Rules
    /// without a pattern among them always have an answer, the empty one.
    pub fn match_rules(&self, path: &str) -> (matches: Option<Vec<bool>>)
        ensures
            exists|outcomes: Seq<Option<bool>>|
                outcomes.len() == pattern_count(self@) && match #[trigger] gathered(outcomes) {
                    Some(g) => matches matches Some(m) && m@ == g,
                    None => matches is None,
                },
            pattern_count(self@) == 0 ==> (matches matches Some(m) && m@ == Seq::<bool>::empty()),
            matches matches Some(m) ==> m@.len() == pattern_count(self@),
    {
        let outcomes = self.outcomes(path);
        let matches = Ignore::gather(&outcomes);
        proof {
            if outcomes@.len() == 0 {
                assert(gathered(outcomes@) == Some(Seq::<bool>::empty())) by {
                    assert(outcomes@.map_values(|o: Option<bool>| o->0) =~= Seq::<bool>::empty());
                }
            }
        }
        matches
    }

    /// Whether `path` is ignored: nothing where no pattern matches it, and
    /// else what the last pattern says. The rules are refused as malformed
    /// where a pattern among them is not valid. Rules without a pattern among
    /// them ignore no path.
    pub fn check_ignore(&self, path: String) -> (result: Result<Option<bool>, GitError>)
        ensures
            exists|outcomes: Seq<Option<bool>>|
                outcomes.len() == pattern_count(self@) && match #[trigger] gathered(outcomes) {
                    Some(g) => result == Ok::<Option<bool>, GitError>(verdict_of(g)),
                    None => result == Err::<Option<bool>, GitError>(GitError::Format),
                },
            pattern_count(self@) == 0 ==> result == Ok::<Option<bool>, GitError>(None),
            match result {
                Ok(verdict) => exists|matches: Seq<bool>|
                    matches.len() == pattern_count(self@) && verdict == verdict_of(matches),
                Err(e) => e == GitError::Format,
            },
    {
        match self.match_rules(path.as_str()) {
            Some(matches) => Ok(Ignore::verdict(&matches)),
            None => Err(GitError::Format),
        }
    }
}

} // verus!
