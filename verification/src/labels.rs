//! Label sets: names with values, each name once, in name order.
use vstd::prelude::*;

use crate::text::{
    before, chars_of, lemma_text_before_asymmetric, lemma_text_before_irreflexive,
    lemma_text_before_total, lemma_text_before_transitive, lemma_views_push, same, string_of,
    text_before, views,
};

verus! {

/// The label that holds a metric's name.
pub const METRIC_NAME_LABEL: &'static str = "__name__";

/// The label that names the application.
pub const APP_LABEL: &'static str = "app";

/// The label that holds a log record's severity.
pub const LEVEL_LABEL: &'static str = "level";

/// The application of a record that names none.
pub const UNKNOWN_APP: &'static str = "unknown";

/// A label as contracts speak of it: its name and its value.
pub type Pair = (Seq<char>, Seq<char>);

/// The value under `name`, if there is one.
pub open spec fn lookup(s: Seq<Pair>, name: Seq<char>) -> Option<Seq<char>>
    decreases s.len(),
{
    if s.len() == 0 {
        None
    } else if s[0].0 == name {
        Some(s[0].1)
    } else {
        lookup(s.drop_first(), name)
    }
}

/// The labels with `name` set to `value`, in its place by name.
pub open spec fn inserted(s: Seq<Pair>, name: Seq<char>, value: Seq<char>) -> Seq<Pair>
    decreases s.len(),
{
    if s.len() == 0 {
        seq![(name, value)]
    } else if s[0].0 == name {
        seq![(name, value)] + s.drop_first()
    } else if text_before(name, s[0].0) {
        seq![(name, value)] + s
    } else {
        seq![s[0]] + inserted(s.drop_first(), name, value)
    }
}

/// The labels without `name`.
pub open spec fn removed(s: Seq<Pair>, name: Seq<char>) -> Seq<Pair>
    decreases s.len(),
{
    if s.len() == 0 {
        s
    } else if s[0].0 == name {
        s.drop_first()
    } else {
        seq![s[0]] + removed(s.drop_first(), name)
    }
}

/// The labels of `s` with those of `more` set over them, in order.
pub open spec fn merged(s: Seq<Pair>, more: Seq<Pair>) -> Seq<Pair>
    decreases more.len(),
{
    if more.len() == 0 {
        s
    } else {
        inserted(merged(s, more.drop_last()), more.last().0, more.last().1)
    }
}

/// The labels whose names are not among `names`.
pub open spec fn kept(s: Seq<Pair>, names: Seq<Seq<char>>) -> Seq<Pair>
    decreases s.len(),
{
    if s.len() == 0 {
        s
    } else if names.contains(s.last().0) {
        kept(s.drop_last(), names)
    } else {
        kept(s.drop_last(), names).push(s.last())
    }
}

/// In name order, each name once.
pub open spec fn sorted(s: Seq<Pair>) -> bool {
    forall|i: int, j: int| 0 <= i < j < s.len() ==> text_before(#[trigger] s[i].0, #[trigger] s[j].0)
}

/// The order of labels: by name, then by value.
pub open spec fn pair_before(p: Pair, q: Pair) -> bool {
    text_before(p.0, q.0) || (p.0 == q.0 && text_before(p.1, q.1))
}

/// The order of label sets: by their first difference, a prefix before what it begins.
pub open spec fn labels_before(a: Seq<Pair>, b: Seq<Pair>) -> bool
    decreases a.len(),
{
    b.len() > 0 && (a.len() == 0 || pair_before(a[0], b[0]) || (a[0] == b[0] && labels_before(
        a.drop_first(),
        b.drop_first(),
    )))
}

/// A character allowed in a label name after its first.
pub open spec fn spec_is_name_char(c: char) -> bool {
    crate::text::is_digit(c) || crate::text::is_letter(c) || c == '_'
}

/// A letter, a digit or `_`.
#[verifier::when_used_as_spec(spec_is_name_char)]
pub fn is_name_char(c: char) -> (r: bool)
    ensures
        r == spec_is_name_char(c),
{
    crate::text::is_digit(c) || crate::text::is_letter(c) || c == '_'
}

/// Every character that no label name may hold replaced by `_`.
pub open spec fn replaced(s: Seq<char>) -> Seq<char> {
    s.map_values(
        |c: char|
            if is_name_char(c) {
                c
            } else {
                '_'
            },
    )
}

/// A text as a label name: other characters become `_`, and a name that would be empty
/// or start with a digit gets a `_` in front.
pub open spec fn sanitized(s: Seq<char>) -> Seq<char> {
    if s.len() == 0 || crate::text::is_digit(s[0]) {
        seq!['_'] + replaced(s)
    } else {
        replaced(s)
    }
}

/// A well-formed label name.
pub open spec fn is_label_name(s: Seq<char>) -> bool {
    &&& s.len() > 0
    &&& !crate::text::is_digit(s[0])
    &&& forall|i: int| 0 <= i < s.len() ==> is_name_char(#[trigger] s[i])
}

/// The value under `name`, or else under the first name that reads the same as a label
/// name.
pub open spec fn lookup_relaxed(s: Seq<Pair>, name: Seq<char>) -> Option<Seq<char>> {
    match lookup(s, name) {
        Some(value) => Some(value),
        None => lookup_sanitized(s, sanitized(name)),
    }
}

pub open spec fn lookup_sanitized(s: Seq<Pair>, name: Seq<char>) -> Option<Seq<char>>
    decreases s.len(),
{
    if s.len() == 0 {
        None
    } else if sanitized(s[0].0) == name {
        Some(s[0].1)
    } else {
        lookup_sanitized(s.drop_first(), name)
    }
}

/// A set of labels.
#[derive(Debug)]
pub struct Labels {
    pairs: Vec<(String, String)>,
}

impl View for Labels {
    type V = Seq<Pair>;

    closed spec fn view(&self) -> Seq<Pair> {
        views(self.pairs@)
    }
}

impl Default for Labels {
    fn default() -> (labels: Labels)
        ensures
            labels@ == Seq::<Pair>::empty(),
    {
        Labels::new()
    }
}

impl Clone for Labels {
    fn clone(&self) -> (labels: Labels)
        ensures
            labels@ == self@,
    {
        let mut pairs: Vec<(String, String)> = Vec::new();
        let mut i: usize = 0;
        while i < self.pairs.len()
            invariant
                i <= self.pairs@.len(),
                views(pairs@) == self@.take(i as int),
            decreases self.pairs@.len() - i,
        {
            let pair: &(String, String) = &self.pairs[i];
            let ghost done = pairs@;
            pairs.push((pair.0.clone(), pair.1.clone()));
            proof {
                lemma_views_push(done, pairs@.last());
                assert(self@[i as int] == pair@);
                assert(self@.take(i as int + 1) =~= self@.take(i as int).push(pair@));
            }
            i += 1;
        }
        assert(self@.take(i as int) =~= self@);
        Labels { pairs }
    }
}

impl PartialEq for Labels {
    fn eq(&self, other: &Labels) -> (r: bool) {
        if self.pairs.len() != other.pairs.len() {
            assert(self@.len() != other@.len());
            return false;
        }
        let mut i: usize = 0;
        while i < self.pairs.len()
            invariant
                self.pairs@.len() == other.pairs@.len(),
                i <= self.pairs@.len(),
                forall|j: int| 0 <= j < i ==> self@[j] == other@[j],
            decreases self.pairs@.len() - i,
        {
            let p: &(String, String) = &self.pairs[i];
            let q: &(String, String) = &other.pairs[i];
            assert(self@[i as int] == (p.0@, p.1@));
            assert(other@[i as int] == (q.0@, q.1@));
            if !same(p.0.as_str(), q.0.as_str()) || !same(p.1.as_str(), q.1.as_str()) {
                return false;
            }
            i += 1;
        }
        assert(self@ =~= other@);
        true
    }
}

impl vstd::std_specs::cmp::PartialEqSpecImpl for Labels {
    open spec fn obeys_eq_spec() -> bool {
        true
    }

    open spec fn eq_spec(&self, other: &Labels) -> bool {
        self@ == other@
    }
}

/// Whether a text is one of a list.
pub fn is_among(text: &str, list: &Vec<String>) -> (r: bool)
    ensures
        r == views(list@).contains(text@),
{
    let mut i: usize = 0;
    while i < list.len()
        invariant
            i <= list@.len(),
            forall|j: int| 0 <= j < i ==> #[trigger] views(list@)[j] != text@,
        decreases list@.len() - i,
    {
        assert(views(list@)[i as int] == list@[i as int]@);
        if same(list[i].as_str(), text) {
            return true;
        }
        i += 1;
    }
    false
}

impl Labels {
    /// No labels.
    pub fn new() -> (labels: Labels)
        ensures
            labels@ == Seq::<Pair>::empty(),
    {
        let labels = Labels { pairs: Vec::new() };
        assert(labels@ =~= Seq::<Pair>::empty());
        labels
    }

    /// How many labels there are.
    pub fn len(&self) -> (n: usize)
        ensures
            n == self@.len(),
    {
        self.pairs.len()
    }

    pub fn is_empty(&self) -> (r: bool)
        ensures
            r == (self@.len() == 0),
    {
        self.pairs.len() == 0
    }

    /// The name of the `i`-th label.
    pub fn name_at(&self, i: usize) -> (name: &str)
        requires
            i < self@.len(),
        ensures
            name@ == self@[i as int].0,
    {
        self.pairs[i].0.as_str()
    }

    /// The value of the `i`-th label.
    pub fn value_at(&self, i: usize) -> (value: &str)
        requires
            i < self@.len(),
        ensures
            value@ == self@[i as int].1,
    {
        self.pairs[i].1.as_str()
    }

    /// Whether there is a label under `name`.
    pub fn contains_key(&self, name: &str) -> (r: bool)
        ensures
            r == (lookup(self@, name@) is Some),
    {
        self.get(name).is_some()
    }

    /// The labels whose names are not among `names`.
    pub fn without(&self, names: &Vec<String>) -> (labels: Labels)
        ensures
            labels@ == kept(self@, views(names@)),
    {
        let mut pairs: Vec<(String, String)> = Vec::new();
        let mut i: usize = 0;
        assert(views(pairs@) =~= self@.take(0));
        while i < self.pairs.len()
            invariant
                i <= self.pairs@.len(),
                views(pairs@) == kept(self@.take(i as int), views(names@)),
            decreases self.pairs@.len() - i,
        {
            let pair: &(String, String) = &self.pairs[i];
            let ghost done = pairs@;
            proof {
                assert(self@[i as int] == pair@);
                assert(self@.take(i as int + 1).drop_last() =~= self@.take(i as int));
                assert(self@.take(i as int + 1).last() == pair@);
            }
            if !is_among(pair.0.as_str(), names) {
                pairs.push((pair.0.clone(), pair.1.clone()));
                proof {
                    lemma_views_push(done, pairs@.last());
                }
            }
            i += 1;
        }
        assert(self@.take(i as int) =~= self@);
        Labels { pairs }
    }

    /// The value under `name`.
    pub fn get(&self, name: &str) -> (value: Option<&str>)
        ensures
            lookup(self@, name@) == (match value {
                Some(text) => Some(text@),
                None => None,
            }),
    {
        let mut i: usize = 0;
        assert(self@.skip(0) =~= self@);
        while i < self.pairs.len()
            invariant
                i <= self.pairs@.len(),
                lookup(self@, name@) == lookup(self@.skip(i as int), name@),
            decreases self.pairs@.len() - i,
        {
            let pair: &(String, String) = &self.pairs[i];
            assert(self@.skip(i as int)[0] == (pair.0@, pair.1@));
            if same(pair.0.as_str(), name) {
                return Some(pair.1.as_str());
            }
            assert(self@.skip(i as int).drop_first() =~= self@.skip(i as int + 1));
            i += 1;
        }
        None
    }

    /// The value under `name`, or else under the first name that reads the same as a
    /// label name.
    pub fn get_relaxed(&self, name: &str) -> (value: Option<&str>)
        ensures
            lookup_relaxed(self@, name@) == (match value {
                Some(text) => Some(text@),
                None => None,
            }),
    {
        match self.get(name) {
            Some(value) => {
                return Some(value);
            },
            None => {},
        }
        let wanted: String = sanitize_label_name(name);
        let mut i: usize = 0;
        assert(self@.skip(0) =~= self@);
        while i < self.pairs.len()
            invariant
                i <= self.pairs@.len(),
                wanted@ == sanitized(name@),
                lookup(self@, name@) is None,
                lookup_sanitized(self@, wanted@) == lookup_sanitized(
                    self@.skip(i as int),
                    wanted@,
                ),
            decreases self.pairs@.len() - i,
        {
            let pair: &(String, String) = &self.pairs[i];
            assert(self@.skip(i as int)[0] == (pair.0@, pair.1@));
            let own: String = sanitize_label_name(pair.0.as_str());
            if same(own.as_str(), wanted.as_str()) {
                return Some(pair.1.as_str());
            }
            assert(self@.skip(i as int).drop_first() =~= self@.skip(i as int + 1));
            i += 1;
        }
        None
    }

    /// Sets `name` to `value`.
    pub fn insert(&mut self, name: &str, value: &str)
        ensures
            final(self)@ == inserted(old(self)@, name@, value@),
    {
        let ghost s = self@;
        let mut i: usize = 0;
        let mut found: bool = false;
        assert(s.take(0) + inserted(s.skip(0), name@, value@) =~= inserted(s, name@, value@)) by {
            assert(s.skip(0) =~= s);
        }
        while i < self.pairs.len() && !same(self.pairs[i].0.as_str(), name) && !before(
            name,
            self.pairs[i].0.as_str(),
        )
            invariant
                s == self@,
                i <= self.pairs@.len(),
                inserted(s, name@, value@) == s.take(i as int) + inserted(
                    s.skip(i as int),
                    name@,
                    value@,
                ),
            decreases self.pairs@.len() - i,
        {
            proof {
                let rest = s.skip(i as int);
                assert(rest[0] == self.pairs@[i as int]@);
                assert(rest.drop_first() =~= s.skip(i as int + 1));
                assert(s.take(i as int) + (seq![rest[0]] + inserted(
                    rest.drop_first(),
                    name@,
                    value@,
                )) =~= s.take(i as int + 1) + inserted(s.skip(i as int + 1), name@, value@));
            }
            i += 1;
        }
        let entry: (String, String) = (name.to_owned(), value.to_owned());
        let ghost before_pairs = self.pairs@;
        if i < self.pairs.len() && same(self.pairs[i].0.as_str(), name) {
            proof {
                assert(s.skip(i as int)[0] == before_pairs[i as int]@);
            }
            self.pairs.set(i, entry);
            assert(self@ =~= s.take(i as int) + (seq![(name@, value@)] + s.skip(
                i as int,
            ).drop_first()));
        } else {
            proof {
                if i < before_pairs.len() {
                    assert(s.skip(i as int)[0] == before_pairs[i as int]@);
                }
            }
            self.pairs.insert(i, entry);
            assert(self@ =~= s.take(i as int) + (seq![(name@, value@)] + s.skip(i as int)));
            assert(s.skip(i as int).len() == 0 ==> seq![(name@, value@)] + s.skip(i as int)
                =~= seq![(name@, value@)]);
        }
    }

    /// Takes `name` out.
    pub fn remove(&mut self, name: &str)
        ensures
            final(self)@ == removed(old(self)@, name@),
    {
        let ghost s = self@;
        let mut i: usize = 0;
        assert(s.take(0) + removed(s.skip(0), name@) =~= removed(s, name@)) by {
            assert(s.skip(0) =~= s);
        }
        while i < self.pairs.len() && !same(self.pairs[i].0.as_str(), name)
            invariant
                s == self@,
                i <= self.pairs@.len(),
                removed(s, name@) == s.take(i as int) + removed(s.skip(i as int), name@),
            decreases self.pairs@.len() - i,
        {
            proof {
                let rest = s.skip(i as int);
                assert(rest[0] == self.pairs@[i as int]@);
                assert(rest.drop_first() =~= s.skip(i as int + 1));
                assert(s.take(i as int) + (seq![rest[0]] + removed(rest.drop_first(), name@))
                    =~= s.take(i as int + 1) + removed(s.skip(i as int + 1), name@));
            }
            i += 1;
        }
        if i < self.pairs.len() {
            proof {
                assert(s.skip(i as int)[0] == self.pairs@[i as int]@);
            }
            let _ = self.pairs.remove(i);
            assert(self@ =~= s.take(i as int) + s.skip(i as int).drop_first());
        } else {
            assert(s =~= s.take(i as int) + s.skip(i as int));
        }
    }

    /// Sets every label of `more`.
    pub fn merge(&mut self, more: &Labels)
        ensures
            final(self)@ == merged(old(self)@, more@),
    {
        let mut i: usize = 0;
        let ghost s = self@;
        assert(more@.take(0) =~= Seq::empty());
        while i < more.len()
            invariant
                i <= more@.len(),
                self@ == merged(s, more@.take(i as int)),
            decreases more@.len() - i,
        {
            assert(more@.take(i as int + 1).drop_last() =~= more@.take(i as int));
            self.insert(more.name_at(i), more.value_at(i));
            i += 1;
        }
        assert(more@.take(i as int) =~= more@);
    }

    /// Whether these labels come before `other` in the order of label sets.
    pub fn comes_before(&self, other: &Labels) -> (r: bool)
        ensures
            r == labels_before(self@, other@),
    {
        let mut i: usize = 0;
        assert(self@.skip(0) =~= self@);
        assert(other@.skip(0) =~= other@);
        while i < self.pairs.len() && i < other.pairs.len()
            invariant
                i <= self.pairs@.len(),
                i <= other.pairs@.len(),
                labels_before(self@, other@) == labels_before(
                    self@.skip(i as int),
                    other@.skip(i as int),
                ),
            decreases self.pairs@.len() - i,
        {
            let p: &(String, String) = &self.pairs[i];
            let q: &(String, String) = &other.pairs[i];
            proof {
                assert(self@.skip(i as int)[0] == (p.0@, p.1@));
                assert(other@.skip(i as int)[0] == (q.0@, q.1@));
                assert(self@.skip(i as int).drop_first() =~= self@.skip(i as int + 1));
                assert(other@.skip(i as int).drop_first() =~= other@.skip(i as int + 1));
                lemma_text_before_irreflexive(p.0@);
                lemma_text_before_irreflexive(p.1@);
            }
            if !same(p.0.as_str(), q.0.as_str()) {
                return before(p.0.as_str(), q.0.as_str());
            }
            if !same(p.1.as_str(), q.1.as_str()) {
                return before(p.1.as_str(), q.1.as_str());
            }
            i += 1;
        }
        i < other.pairs.len()
    }
}

/// `name` as a label name.
pub fn sanitize_label_name(name: &str) -> (r: String)
    ensures
        r@ == sanitized(name@),
{
    let chars: Vec<char> = chars_of(name);
    let mut out: Vec<char> = Vec::new();
    if chars.len() == 0 || crate::text::is_digit(chars[0]) {
        out.push('_');
    }
    let ghost head = out@;
    let mut i: usize = 0;
    assert(head + replaced(chars@.take(0)) =~= head);
    while i < chars.len()
        invariant
            i <= chars@.len(),
            out@ == head + replaced(chars@.take(i as int)),
        decreases chars@.len() - i,
    {
        out.push(
            if is_name_char(chars[i]) {
                chars[i]
            } else {
                '_'
            },
        );
        assert(out@ =~= head + replaced(chars@.take(i as int + 1)));
        i += 1;
    }
    assert(chars@.take(i as int) =~= chars@);
    assert(out@ =~= sanitized(name@));
    string_of(out.as_slice())
}

/// Whether `name` is a well-formed metric name: letters, digits, `_` and `:`, and no
/// digit in front.
pub fn is_valid_metric_name(name: &str) -> (r: bool)
    ensures
        r == is_metric_name(name@),
{
    let chars: Vec<char> = chars_of(name);
    if chars.len() == 0 || crate::text::is_digit(chars[0]) {
        return false;
    }
    let mut i: usize = 0;
    while i < chars.len()
        invariant
            i <= chars@.len(),
            chars@ == name@,
            forall|j: int| 0 <= j < i ==> is_metric_char(#[trigger] chars@[j]),
        decreases chars@.len() - i,
    {
        if !is_name_char(chars[i]) && chars[i] != ':' {
            assert(!is_metric_char(name@[i as int]));
            return false;
        }
        i += 1;
    }
    true
}

pub open spec fn is_metric_char(c: char) -> bool {
    is_name_char(c) || c == ':'
}

/// A well-formed metric name.
pub open spec fn is_metric_name(s: Seq<char>) -> bool {
    &&& s.len() > 0
    &&& !crate::text::is_digit(s[0])
    &&& forall|i: int| 0 <= i < s.len() ==> is_metric_char(#[trigger] s[i])
}

// ---------------------------------------------------------------------------
// Laws
// ---------------------------------------------------------------------------

/// A sanitised name is a well-formed label name.
pub proof fn law_sanitized_is_label_name(s: Seq<char>)
    ensures
        is_label_name(sanitized(s)),
{
}

/// Sanitising a well-formed label name changes nothing, so sanitising twice is
/// sanitising once.
pub proof fn law_sanitizing_is_idempotent(s: Seq<char>)
    ensures
        is_label_name(s) ==> sanitized(s) == s,
        sanitized(sanitized(s)) == sanitized(s),
{
    law_sanitized_is_label_name(s);
    if is_label_name(s) {
        assert(sanitized(s) =~= s);
    }
    assert(sanitized(sanitized(s)) =~= sanitized(s));
}

/// What is set under a name is read under it, and other names read as before.
pub proof fn law_insert_then_get(s: Seq<Pair>, name: Seq<char>, value: Seq<char>, other: Seq<char>)
    requires
        sorted(s),
    ensures
        lookup(inserted(s, name, value), name) == Some(value),
        other != name ==> lookup(inserted(s, name, value), other) == lookup(s, other),
    decreases s.len(),
{
    let t = inserted(s, name, value);
    if s.len() > 0 {
        if s[0].0 == name {
            assert(t.drop_first() =~= s.drop_first());
        } else if text_before(name, s[0].0) {
            assert(t.drop_first() =~= s);
        } else {
            assert forall|i: int, j: int| 0 <= i < j < s.drop_first().len() implies text_before(
                #[trigger] s.drop_first()[i].0,
                #[trigger] s.drop_first()[j].0,
            ) by {
                assert(s.drop_first()[i] == s[i + 1]);
                assert(s.drop_first()[j] == s[j + 1]);
            }
            law_insert_then_get(s.drop_first(), name, value, other);
            assert(t.drop_first() =~= inserted(s.drop_first(), name, value));
        }
    } else {
        assert(t.drop_first() =~= s);
    }
}

/// Setting a label keeps names in order and each once.
pub proof fn law_insert_keeps_order(s: Seq<Pair>, name: Seq<char>, value: Seq<char>)
    requires
        sorted(s),
    ensures
        sorted(inserted(s, name, value)),
        forall|i: int|
            0 <= i < inserted(s, name, value).len() ==> (#[trigger] inserted(s, name, value)[i].0
                == name || exists|j: int| 0 <= j < s.len() && s[j].0 == inserted(s, name, value)[i].0),
    decreases s.len(),
{
    let t = inserted(s, name, value);
    if s.len() > 0 {
        let rest = s.drop_first();
        if s[0].0 == name {
            assert(forall|i: int| 0 < i < t.len() ==> t[i] == s[i]);
        } else if text_before(name, s[0].0) {
            assert(forall|i: int| 0 < i < t.len() ==> t[i] == s[i - 1]);
            assert forall|j: int| 0 < j < t.len() implies text_before(name, #[trigger] t[j].0) by {
                if j > 1 {
                    lemma_text_before_transitive(name, s[0].0, s[j - 1].0);
                }
            }
        } else {
            lemma_text_before_total(name, s[0].0);
            assert forall|i: int, j: int| 0 <= i < j < rest.len() implies text_before(
                #[trigger] rest[i].0,
                #[trigger] rest[j].0,
            ) by {
                assert(rest[i] == s[i + 1]);
                assert(rest[j] == s[j + 1]);
            }
            law_insert_keeps_order(rest, name, value);
            let u = inserted(rest, name, value);
            assert(forall|i: int| 0 < i < t.len() ==> t[i] == u[i - 1]);
            assert forall|j: int| 0 < j < t.len() implies text_before(t[0].0, #[trigger] t[j].0) by {
                if u[j - 1].0 != name {
                    let k = choose|k: int| 0 <= k < rest.len() && rest[k].0 == u[j - 1].0;
                    assert(rest[k] == s[k + 1]);
                }
            }
            assert forall|i: int| 0 <= i < t.len() implies (#[trigger] t[i].0 == name || exists|
                j: int,
            | 0 <= j < s.len() && s[j].0 == t[i].0) by {
                if i > 0 && u[i - 1].0 != name {
                    let k = choose|k: int| 0 <= k < rest.len() && rest[k].0 == u[i - 1].0;
                    assert(s[k + 1].0 == t[i].0);
                } else if i == 0 {
                    assert(s[0].0 == t[0].0);
                }
            }
        }
    }
}

/// After a merge a name reads as what was merged in, and as before where nothing was.
pub proof fn law_merge_then_get(s: Seq<Pair>, more: Seq<Pair>, name: Seq<char>)
    requires
        sorted(s),
        sorted(more),
    ensures
        sorted(merged(s, more)),
        lookup(merged(s, more), name) == (match lookup(more, name) {
            Some(value) => Some(value),
            None => lookup(s, name),
        }),
    decreases more.len(),
{
    if more.len() > 0 {
        let rest = more.drop_last();
        law_merge_then_get(s, rest, name);
        law_insert_keeps_order(merged(s, rest), more.last().0, more.last().1);
        law_insert_then_get(merged(s, rest), more.last().0, more.last().1, name);
        lemma_lookup_last(more, name);
    }
}

/// A name reads as the last pair where that is its own, and as the pairs before it say
/// otherwise.
proof fn lemma_lookup_last(s: Seq<Pair>, name: Seq<char>)
    requires
        sorted(s),
        s.len() > 0,
    ensures
        lookup(s, name) == (if s.last().0 == name {
            Some(s.last().1)
        } else {
            lookup(s.drop_last(), name)
        }),
    decreases s.len(),
{
    if s.len() > 1 {
        let rest = s.drop_first();
        assert(rest.last() == s.last());
        assert(rest.drop_last() =~= s.drop_last().drop_first());
        assert(s.drop_last()[0] == s[0]);
        assert(text_before(s[0].0, s[s.len() - 1].0));
        lemma_text_before_irreflexive(s[0].0);
        lemma_lookup_last(rest, name);
    } else {
        assert(s.drop_last() =~= Seq::<Pair>::empty());
        assert(s.drop_first() =~= Seq::<Pair>::empty());
    }
}

/// A label that was taken out is not there, and other names read as before.
pub proof fn law_remove_then_get(s: Seq<Pair>, name: Seq<char>, other: Seq<char>)
    requires
        sorted(s),
    ensures
        lookup(removed(s, name), name) is None,
        other != name ==> lookup(removed(s, name), other) == lookup(s, other),
    decreases s.len(),
{
    if s.len() > 0 {
        let rest = s.drop_first();
        assert forall|i: int, j: int| 0 <= i < j < rest.len() implies text_before(
            #[trigger] rest[i].0,
            #[trigger] rest[j].0,
        ) by {
            assert(rest[i] == s[i + 1]);
            assert(rest[j] == s[j + 1]);
        }
        if s[0].0 == name {
            assert forall|j: int| 0 <= j < rest.len() implies #[trigger] rest[j].0 != name by {
                assert(rest[j] == s[j + 1]);
                lemma_text_before_asymmetric(name, rest[j].0);
            }
            lemma_lookup_absent(rest, name);
        } else {
            law_remove_then_get(rest, name, other);
            assert(removed(s, name).drop_first() =~= removed(rest, name));
        }
    }
}

/// A name that no label has reads as absent.
pub proof fn lemma_lookup_absent(s: Seq<Pair>, name: Seq<char>)
    requires
        forall|i: int| 0 <= i < s.len() ==> #[trigger] s[i].0 != name,
    ensures
        lookup(s, name) is None,
    decreases s.len(),
{
    if s.len() > 0 {
        let rest = s.drop_first();
        assert forall|i: int| 0 <= i < rest.len() implies #[trigger] rest[i].0 != name by {
            assert(rest[i] == s[i + 1]);
        }
        lemma_lookup_absent(rest, name);
    }
}

/// The order of label sets: no set before itself, one before the other unless equal.
pub proof fn law_labels_order_total(a: Seq<Pair>, b: Seq<Pair>)
    ensures
        !labels_before(a, a),
        a == b || labels_before(a, b) || labels_before(b, a),
        !(labels_before(a, b) && labels_before(b, a)),
    decreases a.len(),
{
    if a.len() > 0 {
        lemma_text_before_irreflexive(a[0].0);
        lemma_text_before_irreflexive(a[0].1);
        law_labels_order_total(a.drop_first(), a.drop_first());
    }
    if a.len() > 0 && b.len() > 0 {
        law_labels_order_total(a.drop_first(), b.drop_first());
        lemma_text_before_total(a[0].0, b[0].0);
        lemma_text_before_total(a[0].1, b[0].1);
        if text_before(a[0].0, b[0].0) {
            lemma_text_before_asymmetric(a[0].0, b[0].0);
        }
        if text_before(b[0].0, a[0].0) {
            lemma_text_before_asymmetric(b[0].0, a[0].0);
        }
        if text_before(a[0].1, b[0].1) {
            lemma_text_before_asymmetric(a[0].1, b[0].1);
        }
        if text_before(b[0].1, a[0].1) {
            lemma_text_before_asymmetric(b[0].1, a[0].1);
        }
        if a[0] == b[0] && a.drop_first() == b.drop_first() {
            assert(a =~= seq![a[0]] + a.drop_first());
            assert(b =~= seq![b[0]] + b.drop_first());
        }
    } else if a.len() == 0 && b.len() == 0 {
        assert(a =~= b);
    }
}

/// The order of label sets is transitive.
pub proof fn law_labels_order_transitive(a: Seq<Pair>, b: Seq<Pair>, c: Seq<Pair>)
    requires
        labels_before(a, b),
        labels_before(b, c),
    ensures
        labels_before(a, c),
    decreases a.len(),
{
    if a.len() > 0 {
        if text_before(a[0].0, b[0].0) && text_before(b[0].0, c[0].0) {
            lemma_text_before_transitive(a[0].0, b[0].0, c[0].0);
        }
        if text_before(a[0].1, b[0].1) && text_before(b[0].1, c[0].1) {
            lemma_text_before_transitive(a[0].1, b[0].1, c[0].1);
        }
        if a[0] == b[0] && b[0] == c[0] && !pair_before(a[0], b[0]) && !pair_before(b[0], c[0]) {
            law_labels_order_transitive(a.drop_first(), b.drop_first(), c.drop_first());
        } else if a[0] == b[0] && b[0] == c[0] {
            lemma_text_before_irreflexive(a[0].0);
            lemma_text_before_irreflexive(a[0].1);
        }
    }
}

/// In a set of labels a name is looked up exactly where a pair holds it.
pub proof fn lemma_lookup_is_a_pair(s: Seq<Pair>, name: Seq<char>, value: Seq<char>)
    requires
        sorted(s),
    ensures
        (lookup(s, name) == Some(value)) == s.contains((name, value)),
    decreases s.len(),
{
    if s.len() > 0 {
        let rest = s.drop_first();
        lemma_sorted_rest(s);
        lemma_lookup_is_a_pair(rest, name, value);
        if s[0].0 == name {
            if s.contains((name, value)) {
                let i = choose|i: int| 0 <= i < s.len() && s[i] == (name, value);
                if i > 0 {
                    assert(text_before(s[0].0, s[i].0));
                    lemma_text_before_irreflexive(name);
                }
            } else {
                assert(s[0] != (name, value));
            }
        } else if s.contains((name, value)) {
            let i = choose|i: int| 0 <= i < s.len() && s[i] == (name, value);
            assert(rest[i - 1] == (name, value));
        } else if rest.contains((name, value)) {
            let i = choose|i: int| 0 <= i < rest.len() && rest[i] == (name, value);
            assert(s[i + 1] == (name, value));
        }
    }
}

proof fn lemma_sorted_rest(s: Seq<Pair>)
    requires
        sorted(s),
        s.len() > 0,
    ensures
        sorted(s.drop_first()),
        sorted(s.drop_last()),
{
    let rest = s.drop_first();
    assert forall|i: int, j: int| 0 <= i < j < rest.len() implies text_before(
        #[trigger] rest[i].0,
        #[trigger] rest[j].0,
    ) by {
        assert(rest[i] == s[i + 1] && rest[j] == s[j + 1]);
    }
    let front = s.drop_last();
    assert forall|i: int, j: int| 0 <= i < j < front.len() implies text_before(
        #[trigger] front[i].0,
        #[trigger] front[j].0,
    ) by {
        assert(front[i] == s[i] && front[j] == s[j]);
    }
}

/// Labels that are all among others are no more than those, and the same where they are
/// as many.
pub proof fn lemma_sublabels(a: Seq<Pair>, b: Seq<Pair>)
    requires
        sorted(a),
        sorted(b),
        forall|i: int| 0 <= i < a.len() ==> b.contains(#[trigger] a[i]),
    ensures
        a.len() <= b.len(),
        a.len() == b.len() ==> a == b,
    decreases b.len(),
{
    if a.len() == 0 {
        assert(b.len() == 0 ==> a =~= b);
    } else {
        assert(b.contains(a[a.len() - 1]));
        let at = choose|i: int| 0 <= i < b.len() && b[i] == a.last();
        lemma_sorted_rest(a);
        lemma_sorted_rest(b);
        let front = b.drop_last();
        if at == b.len() - 1 {
            let own = a.drop_last();
            assert forall|i: int| 0 <= i < own.len() implies front.contains(#[trigger] own[i]) by {
                assert(b.contains(a[i]));
                let k = choose|k: int| 0 <= k < b.len() && b[k] == a[i];
                assert(text_before(a[i].0, a[a.len() - 1].0));
                lemma_text_before_irreflexive(a[i].0);
                assert(front[k] == own[i]);
            }
            lemma_sublabels(own, front);
            if a.len() == b.len() {
                assert(a =~= own.push(a.last()));
                assert(b =~= front.push(b.last()));
            }
        } else {
            assert forall|i: int| 0 <= i < a.len() implies front.contains(#[trigger] a[i]) by {
                assert(b.contains(a[i]));
                let k = choose|k: int| 0 <= k < b.len() && b[k] == a[i];
                if k == b.len() - 1 {
                    assert(text_before(b[at].0, b[k].0));
                    if i < a.len() - 1 {
                        assert(text_before(a[i].0, a[a.len() - 1].0));
                        lemma_text_before_asymmetric(a[i].0, a[a.len() - 1].0);
                    } else {
                        lemma_text_before_irreflexive(a[i].0);
                    }
                }
                assert(front[k] == a[i]);
            }
            lemma_sublabels(a, front);
        }
    }
}

/// Sets of labels that read alike under every name are the same.
pub proof fn law_labels_are_what_they_read(a: Seq<Pair>, b: Seq<Pair>)
    requires
        sorted(a),
        sorted(b),
        forall|name: Seq<char>| #[trigger] lookup(a, name) == lookup(b, name),
    ensures
        a == b,
{
    assert forall|i: int| 0 <= i < a.len() implies b.contains(#[trigger] a[i]) by {
        lemma_lookup_is_a_pair(a, a[i].0, a[i].1);
        lemma_lookup_is_a_pair(b, a[i].0, a[i].1);
        assert(a[i] == (a[i].0, a[i].1));
        assert(a.contains((a[i].0, a[i].1)));
        assert(lookup(a, a[i].0) == lookup(b, a[i].0));
    }
    assert forall|i: int| 0 <= i < b.len() implies a.contains(#[trigger] b[i]) by {
        lemma_lookup_is_a_pair(a, b[i].0, b[i].1);
        lemma_lookup_is_a_pair(b, b[i].0, b[i].1);
        assert(b[i] == (b[i].0, b[i].1));
        assert(b.contains((b[i].0, b[i].1)));
        assert(lookup(a, b[i].0) == lookup(b, b[i].0));
    }
    lemma_sublabels(a, b);
    lemma_sublabels(b, a);
}

/// What is kept of a set of labels is in order and is what the names leave over.
pub proof fn law_kept_labels(s: Seq<Pair>, names: Seq<Seq<char>>)
    requires
        sorted(s),
    ensures
        sorted(kept(s, names)),
        forall|i: int|
            0 <= i < kept(s, names).len() ==> s.contains(#[trigger] kept(s, names)[i])
                && !names.contains(kept(s, names)[i].0),
        forall|i: int|
            0 <= i < s.len() && !names.contains(s[i].0) ==> kept(s, names).contains(#[trigger] s[i]),
    decreases s.len(),
{
    if s.len() > 0 {
        let front = s.drop_last();
        lemma_sorted_rest(s);
        law_kept_labels(front, names);
        let before = kept(front, names);
        let after = kept(s, names);
        assert forall|i: int| 0 <= i < before.len() implies s.contains(#[trigger] before[i])
            && text_before(before[i].0, s.last().0) by {
            assert(front.contains(before[i]));
            let k = choose|k: int| 0 <= k < front.len() && front[k] == before[i];
            assert(s[k] == before[i]);
            assert(text_before(s[k].0, s[s.len() - 1].0));
        }
        assert forall|i: int| 0 <= i < after.len() implies s.contains(#[trigger] after[i])
            && !names.contains(after[i].0) by {
            if i < before.len() {
                assert(after[i] == before[i]);
            } else {
                assert(after[i] == s[s.len() - 1]);
            }
        }
        assert forall|i: int, j: int| 0 <= i < j < after.len() implies text_before(
            #[trigger] after[i].0,
            #[trigger] after[j].0,
        ) by {
            assert(after[i] == before[i]);
            if j < before.len() {
                assert(after[j] == before[j]);
            }
        }
        assert forall|i: int| 0 <= i < s.len() && !names.contains(s[i].0) implies after.contains(
            #[trigger] s[i],
        ) by {
            if i < s.len() - 1 {
                assert(front[i] == s[i]);
                assert(before.contains(front[i]));
                let k = choose|k: int| 0 <= k < before.len() && before[k] == front[i];
                assert(after[k] == s[i]);
            } else {
                assert(after[after.len() - 1] == s[i]);
            }
        }
    }
}

} // verus!
