//! Label matchers and the regular expressions behind them.
use regex::Regex;
use vstd::prelude::*;

use crate::error::{refused, Error, Failure, Fault};
use crate::labels::{lemma_lookup_is_a_pair, lookup, sorted, Labels, Pair};
use crate::text::{debug_text, quoted, same, views};

verus! {

// ---------------------------------------------------------------------------
// Regular expressions
// ---------------------------------------------------------------------------

#[verifier::external_type_specification]
#[verifier::external_body]
pub struct ExRegex(regex::Regex);

/// The pattern that a compiled expression was made from: what `Regex::as_str` returns.
pub uninterp spec fn regex_source(regex: &Regex) -> Seq<char>;

/// The text of the error that `Regex::new` gives for a pattern; none where it compiles.
pub uninterp spec fn regex_error(pattern: Seq<char>) -> Option<Seq<char>>;

/// What `Regex::is_match` answers: whether the pattern matches anywhere in the text.
pub uninterp spec fn regex_found(pattern: Seq<char>, text: Seq<char>) -> bool;

/// `Regex::new`: compiles `pattern`, or gives the text of its error. Whether it
/// compiles, and the error, depend on the pattern alone.
#[verifier::external_body]
pub(crate) fn compile(pattern: &str) -> (r: Result<Regex, String>)
    ensures
        match r {
            Ok(regex) => regex_error(pattern@) is None && regex_source(&regex) == pattern@,
            Err(message) => regex_error(pattern@) == Some(message@),
        },
{
    Regex::new(pattern).map_err(|error| error.to_string())
}

/// `Regex::is_match`: whether the expression matches anywhere in `text`, which depends
/// on the pattern and the text alone.
#[verifier::external_body]
pub(crate) fn found(regex: &Regex, text: &str) -> (r: bool)
    ensures
        r == regex_found(regex_source(regex), text@),
{
    regex.is_match(text)
}

/// The refusal of a pattern that does not compile.
pub open spec fn bad_pattern(pattern: Seq<char>, error: Seq<char>) -> Fault {
    refused("invalid regular expression "@ + debug_text(pattern) + ": "@ + error)
}

/// The refusal of `pattern` with the error text `error`.
pub fn bad_pattern_error(pattern: &str, error: &str) -> (r: Error)
    ensures
        r@ == bad_pattern(pattern@, error@),
{
    let mut message: String = "invalid regular expression ".to_owned();
    message.append(quoted(pattern).as_str());
    message.append(": ");
    message.append(error);
    Failure::BadRequest(message)
}

// ---------------------------------------------------------------------------
// Matchers
// ---------------------------------------------------------------------------

/// How a matcher compares.
#[derive(Debug, Clone, Copy, PartialEq, Eq, Structural)]
pub enum MatchOp {
    Equal,
    NotEqual,
    Regex,
    NotRegex,
}

/// A matcher as contracts speak of it.
pub struct MatcherView {
    pub name: Seq<char>,
    pub op: MatchOp,
    pub value: Seq<char>,
}

/// A matcher's pattern, which has to match the whole value.
pub open spec fn anchored(pattern: Seq<char>) -> Seq<char> {
    "^(?:"@ + pattern + ")$"@
}

impl MatcherView {
    /// Whether a label with this value satisfies the matcher.
    pub open spec fn accepts(self, actual: Seq<char>) -> bool {
        match self.op {
            MatchOp::Equal => actual == self.value,
            MatchOp::NotEqual => actual != self.value,
            MatchOp::Regex => regex_found(anchored(self.value), actual),
            MatchOp::NotRegex => !regex_found(anchored(self.value), actual),
        }
    }

    /// Whether a label set satisfies the matcher. An absent label is the empty text.
    pub open spec fn matches(self, labels: Seq<Pair>) -> bool {
        match lookup(labels, self.name) {
            Some(value) => self.accepts(value),
            None => self.accepts(""@),
        }
    }

    /// Whether the matcher asks for a value: a positive comparison that an absent label
    /// fails.
    pub open spec fn selective(self) -> bool {
        (self.op == MatchOp::Equal || self.op == MatchOp::Regex) && !self.accepts(""@)
    }
}

/// The matcher that three parts make, or why they make none.
pub open spec fn matcher_of(name: Seq<char>, op: MatchOp, value: Seq<char>) -> Result<
    MatcherView,
    Fault,
> {
    if op == MatchOp::Regex || op == MatchOp::NotRegex {
        match regex_error(anchored(value)) {
            Some(error) => Err(bad_pattern(value, error)),
            None => Ok(MatcherView { name, op, value }),
        }
    } else {
        Ok(MatcherView { name, op, value })
    }
}

/// Every matcher holds of the labels.
pub open spec fn all_match(matchers: Seq<MatcherView>, labels: Seq<Pair>) -> bool {
    forall|i: int| 0 <= i < matchers.len() ==> #[trigger] matchers[i].matches(labels)
}

/// A condition on one label.
#[derive(Debug)]
pub struct LabelMatcher {
    pub name: String,
    op: MatchOp,
    value: String,
    regex: Option<Regex>,
}

impl View for LabelMatcher {
    type V = MatcherView;

    closed spec fn view(&self) -> MatcherView {
        MatcherView { name: self.name@, op: self.op, value: self.value@ }
    }
}

fn anchor(pattern: &str) -> (r: String)
    ensures
        r@ == anchored(pattern@),
{
    let mut text: String = "^(?:".to_owned();
    text.append(pattern);
    text.append(")$");
    text
}

impl LabelMatcher {
    #[verifier::type_invariant]
    spec fn compiled(self) -> bool {
        match self.op {
            MatchOp::Regex | MatchOp::NotRegex => self.regex is Some && regex_source(
                &self.regex->Some_0,
            ) == anchored(self.value@),
            _ => true,
        }
    }

    /// A matcher, with its pattern compiled where it has one.
    pub fn new(name: String, op: MatchOp, value: String) -> (r: Result<LabelMatcher, Error>)
        ensures
            crate::error::outcome(r) == matcher_of(name@, op, value@),
    {
        match op {
            MatchOp::Regex | MatchOp::NotRegex => {
                let pattern: String = anchor(value.as_str());
                match compile(pattern.as_str()) {
                    Ok(regex) => Ok(LabelMatcher { name, op, value, regex: Some(regex) }),
                    Err(error) => Err(bad_pattern_error(value.as_str(), error.as_str())),
                }
            },
            _ => Ok(LabelMatcher { name, op, value, regex: None }),
        }
    }

    /// The matcher `name="value"`.
    pub fn equal(name: &str, value: &str) -> (r: LabelMatcher)
        ensures
            r@ == (MatcherView { name: name@, op: MatchOp::Equal, value: value@ }),
    {
        LabelMatcher {
            name: name.to_owned(),
            op: MatchOp::Equal,
            value: value.to_owned(),
            regex: None,
        }
    }

    /// The name of the label that the matcher looks at.
    pub fn name(&self) -> (name: &str)
        ensures
            name@ == self@.name,
    {
        self.name.as_str()
    }

    pub fn op(&self) -> (op: MatchOp)
        ensures
            op == self@.op,
    {
        self.op
    }

    pub fn value(&self) -> (value: &str)
        ensures
            value@ == self@.value,
    {
        self.value.as_str()
    }

    fn accepts(&self, actual: &str) -> (r: bool)
        ensures
            r == self@.accepts(actual@),
    {
        proof {
            use_type_invariant(self);
        }
        match self.op {
            MatchOp::Equal => same(actual, self.value.as_str()),
            MatchOp::NotEqual => !same(actual, self.value.as_str()),
            MatchOp::Regex => match &self.regex {
                Some(regex) => found(regex, actual),
                None => false,
            },
            MatchOp::NotRegex => match &self.regex {
                Some(regex) => !found(regex, actual),
                None => true,
            },
        }
    }

    /// Whether `labels` satisfy the matcher. An absent label is the empty text.
    pub fn matches(&self, labels: &Labels) -> (r: bool)
        ensures
            r == self@.matches(labels@),
    {
        match labels.get(self.name.as_str()) {
            Some(value) => self.accepts(value),
            None => self.accepts(""),
        }
    }

    /// Whether the matcher asks for a value.
    pub fn is_selective(&self) -> (r: bool)
        ensures
            r == self@.selective(),
    {
        match self.op {
            MatchOp::Equal | MatchOp::Regex => !self.accepts(""),
            _ => false,
        }
    }

    /// Whether two matchers are the same condition.
    pub fn same_as(&self, other: &LabelMatcher) -> (r: bool)
        ensures
            r == (self@ == other@),
    {
        self.op == other.op && same(self.name.as_str(), other.name.as_str()) && same(
            self.value.as_str(),
            other.value.as_str(),
        )
    }
}

/// Whether `labels` satisfy every matcher.
pub fn matches_all(matchers: &Vec<LabelMatcher>, labels: &Labels) -> (r: bool)
    ensures
        r == all_match(views(matchers@), labels@),
{
    let mut i: usize = 0;
    while i < matchers.len()
        invariant
            i <= matchers@.len(),
            forall|j: int| 0 <= j < i ==> #[trigger] views(matchers@)[j].matches(labels@),
        decreases matchers@.len() - i,
    {
        assert(views(matchers@)[i as int] == matchers@[i as int]@);
        if !matchers[i].matches(labels) {
            return false;
        }
        i += 1;
    }
    true
}

// ---------------------------------------------------------------------------
// Laws
// ---------------------------------------------------------------------------

/// `!=` holds exactly where `=` does not, and `!~` exactly where `=~` does not: of every label
/// set, one of the two is true.
pub proof fn law_a_negation_is_the_opposite(name: Seq<char>, value: Seq<char>, labels: Seq<Pair>)
    ensures
        (MatcherView { name, op: MatchOp::NotEqual, value }).matches(labels) != (MatcherView {
            name,
            op: MatchOp::Equal,
            value,
        }).matches(labels),
        (MatcherView { name, op: MatchOp::NotRegex, value }).matches(labels) != (MatcherView {
            name,
            op: MatchOp::Regex,
            value,
        }).matches(labels),
{
}

/// A matcher looks at the label of its own name: `=` asks for that very value, and `=~` that
/// the pattern matches it from its start to its end.
pub proof fn law_a_matcher_looks_at_its_label(
    name: Seq<char>,
    value: Seq<char>,
    labels: Seq<Pair>,
    actual: Seq<char>,
)
    requires
        sorted(labels),
        labels.contains((name, actual)),
    ensures
        (MatcherView { name, op: MatchOp::Equal, value }).matches(labels) == (actual == value),
        (MatcherView { name, op: MatchOp::Regex, value }).matches(labels) == regex_found(
            "^(?:"@ + value + ")$"@,
            actual,
        ),
{
    lemma_lookup_is_a_pair(labels, name, actual);
}

/// An absent label is the empty text to every matcher.
pub proof fn law_an_absent_label_is_empty(name: Seq<char>, value: Seq<char>, labels: Seq<Pair>)
    requires
        forall|i: int| 0 <= i < labels.len() ==> (#[trigger] labels[i]).0 != name,
    ensures
        (MatcherView { name, op: MatchOp::Equal, value }).matches(labels) == (value.len() == 0),
        (MatcherView { name, op: MatchOp::Regex, value }).matches(labels) == regex_found(
            "^(?:"@ + value + ")$"@,
            Seq::empty(),
        ),
{
    lemma_lookup_of_none(labels, name);
    reveal_strlit("");
    assert(""@ =~= Seq::<char>::empty());
    if value.len() == 0 {
        assert(value =~= ""@);
    }
}

proof fn lemma_lookup_of_none(labels: Seq<Pair>, name: Seq<char>)
    requires
        forall|i: int| 0 <= i < labels.len() ==> (#[trigger] labels[i]).0 != name,
    ensures
        lookup(labels, name) is None,
    decreases labels.len(),
{
    if labels.len() > 0 {
        let rest = labels.drop_first();
        assert forall|i: int| 0 <= i < rest.len() implies (#[trigger] rest[i]).0 != name by {
            assert(rest[i] == labels[i + 1]);
        }
        lemma_lookup_of_none(rest, name);
    }
}

/// A selective matcher takes no stream that lacks its label, and only such a matcher of the
/// positive ones does not: what is not selective and positive takes a stream without labels.
pub proof fn law_a_selective_matcher_needs_its_label(matcher: MatcherView, labels: Seq<Pair>)
    requires
        forall|i: int| 0 <= i < labels.len() ==> (#[trigger] labels[i]).0 != matcher.name,
    ensures
        matcher.selective() ==> !matcher.matches(labels),
        matcher.op == MatchOp::Equal || matcher.op == MatchOp::Regex ==> (matcher.selective()
            || matcher.matches(labels)),
        matcher.op == MatchOp::NotEqual || matcher.op == MatchOp::NotRegex ==> !matcher.selective(),
{
    lemma_lookup_of_none(labels, matcher.name);
}

/// A selector is the conjunction of its matchers: one more takes no more streams, and exactly
/// those of the rest that it matches.
pub proof fn law_matchers_are_a_conjunction(
    matchers: Seq<MatcherView>,
    matcher: MatcherView,
    labels: Seq<Pair>,
)
    ensures
        all_match(matchers.push(matcher), labels) == (all_match(matchers, labels)
            && matcher.matches(labels)),
        all_match(Seq::empty(), labels),
{
    let more = matchers.push(matcher);
    if all_match(more, labels) {
        assert(more[matchers.len() as int] == matcher);
        assert forall|i: int| 0 <= i < matchers.len() implies #[trigger] matchers[i].matches(
            labels,
        ) by {
            assert(more[i] == matchers[i]);
            assert(more[i].matches(labels));
        }
    }
    if all_match(matchers, labels) && matcher.matches(labels) {
        assert forall|i: int| 0 <= i < more.len() implies #[trigger] more[i].matches(labels) by {
            if i < matchers.len() {
                assert(more[i] == matchers[i]);
            }
        }
    }
}

} // verus!
