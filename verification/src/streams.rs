//! Rules that the signals share: which application a record belongs to, which attributes
//! become labels, what labels may look like, and what a timestamp means.
use vstd::prelude::*;

use crate::config::LimitsConfig;
use crate::decoded::{RejectReason, Rejection, RejectionView};
use crate::labels::{
    inserted, lookup, sanitize_label_name, sanitized, Labels, Pair, APP_LABEL, LEVEL_LABEL,
    UNKNOWN_APP,
};
use crate::text::{
    byte_len, debug_text, decimal, decimal_text, option_view, quoted, same, utf8_len, views,
};

verus! {

// ---------------------------------------------------------------------------
// Labels
// ---------------------------------------------------------------------------

/// The application that inherited labels name: `app`, or else the service's name.
pub open spec fn app_named(inherited: Seq<Pair>) -> Seq<char> {
    match lookup(inherited, APP_LABEL@) {
        Some(name) => name,
        None => match lookup(inherited, "service_name"@) {
            Some(name) => name,
            None => UNKNOWN_APP@,
        },
    }
}

/// The application that inherited labels name.
pub fn app_name(inherited: &Labels) -> (name: &str)
    ensures
        name@ == app_named(inherited@),
{
    match inherited.get(APP_LABEL) {
        Some(name) => name,
        None => match inherited.get("service_name") {
            Some(name) => name,
            None => UNKNOWN_APP,
        },
    }
}

/// The labels that configuration may not set.
#[derive(Clone, Copy, PartialEq, Eq, Structural)]
pub struct Reserved {
    pub app: bool,
    pub level: bool,
}

impl Reserved {
    pub open spec fn holds(self, name: Seq<char>) -> bool {
        (self.app && name == APP_LABEL@) || (self.level && name == LEVEL_LABEL@)
    }
}

/// The labels with the configured attributes promoted to labels, where they are there and
/// their names are not reserved.
pub open spec fn promoted(
    labels: Seq<Pair>,
    inherited: Seq<Pair>,
    names: Seq<Seq<char>>,
    reserved: Reserved,
) -> Seq<Pair>
    decreases names.len(),
{
    if names.len() == 0 {
        labels
    } else {
        let sofar = promoted(labels, inherited, names.drop_last(), reserved);
        let name = sanitized(names.last());
        match lookup(inherited, name) {
            Some(value) => if reserved.holds(name) {
                sofar
            } else {
                inserted(sofar, name, value)
            },
            None => sofar,
        }
    }
}

/// Promotes the configured attributes to labels.
pub fn promote(labels: &mut Labels, inherited: &Labels, names: &Vec<String>, reserved: Reserved)
    ensures
        final(labels)@ == promoted(old(labels)@, inherited@, views(names@), reserved),
{
    let ghost start = labels@;
    let ghost all = views(names@);
    let mut i: usize = 0;
    assert(all.take(0) =~= Seq::empty());
    while i < names.len()
        invariant
            i <= names@.len(),
            all == views(names@),
            labels@ == promoted(start, inherited@, all.take(i as int), reserved),
        decreases names@.len() - i,
    {
        proof {
            assert(all.take(i as int + 1).drop_last() =~= all.take(i as int));
            assert(all.take(i as int + 1).last() == names@[i as int]@);
        }
        let name: String = sanitize_label_name(names[i].as_str());
        let kept: bool = (reserved.app && same(name.as_str(), APP_LABEL)) || (reserved.level
            && same(name.as_str(), LEVEL_LABEL));
        if !kept {
            match inherited.get(name.as_str()) {
                Some(value) => labels.insert(name.as_str(), value),
                None => {},
            }
        }
        i += 1;
    }
    assert(all.take(i as int) =~= all);
}

/// The refusal of too many labels, which the message calls `noun`.
pub open spec fn too_many_labels(
    labels: Seq<Pair>,
    noun: Seq<char>,
    limits: LimitsConfig,
) -> Option<RejectionView> {
    if labels.len() > limits.max_labels_per_series {
        Some(
            RejectionView {
                reason: RejectReason::TooManyLabels,
                detail: decimal(labels.len()) + " "@ + noun + " exceeds max_labels_per_series ("@
                    + decimal(limits.max_labels_per_series as nat) + ")"@,
            },
        )
    } else {
        None
    }
}

/// Refuses too many labels.
pub fn check_label_count(labels: &Labels, noun: &str, limits: &LimitsConfig) -> (r: Option<
    Rejection,
>)
    ensures
        option_view(r) == too_many_labels(labels@, noun@, *limits),
{
    if labels.len() > limits.max_labels_per_series as usize {
        let mut detail: String = decimal_text(labels.len() as u64);
        detail.append(" ");
        detail.append(noun);
        detail.append(" exceeds max_labels_per_series (");
        detail.append(decimal_text(limits.max_labels_per_series as u64).as_str());
        detail.append(")");
        Some(Rejection::new(RejectReason::TooManyLabels, detail))
    } else {
        None
    }
}

/// The refusal of one label whose name or value is too long.
pub open spec fn label_too_long(label: Pair, limits: LimitsConfig) -> Option<RejectionView> {
    if utf8_len(label.0) > limits.max_label_name_bytes {
        Some(
            RejectionView {
                reason: RejectReason::LabelNameTooLong,
                detail: "label name "@ + debug_text(label.0) + " exceeds max_label_name_bytes"@,
            },
        )
    } else if utf8_len(label.1) > limits.max_label_value_bytes {
        Some(
            RejectionView {
                reason: RejectReason::LabelValueTooLong,
                detail: "value of label "@ + debug_text(label.0)
                    + " exceeds max_label_value_bytes"@,
            },
        )
    } else {
        None
    }
}

/// The refusal of the first label that is too long.
pub open spec fn first_too_long(labels: Seq<Pair>, limits: LimitsConfig) -> Option<RejectionView>
    decreases labels.len(),
{
    if labels.len() == 0 {
        None
    } else {
        match label_too_long(labels[0], limits) {
            Some(rejection) => Some(rejection),
            None => first_too_long(labels.drop_first(), limits),
        }
    }
}

/// The refusal of a label set that is too wide or whose labels are too long.
pub open spec fn labels_rejected(
    labels: Seq<Pair>,
    noun: Seq<char>,
    limits: LimitsConfig,
) -> Option<RejectionView> {
    match too_many_labels(labels, noun, limits) {
        Some(rejection) => Some(rejection),
        None => first_too_long(labels, limits),
    }
}

/// Refuses a label set that is too wide or whose labels are too long.
pub fn check_labels(labels: &Labels, noun: &str, limits: &LimitsConfig) -> (r: Option<Rejection>)
    ensures
        option_view(r) == labels_rejected(labels@, noun@, *limits),
{
    match check_label_count(labels, noun, limits) {
        Some(rejection) => {
            return Some(rejection);
        },
        None => {},
    }
    let mut i: usize = 0;
    assert(labels@.skip(0) =~= labels@);
    while i < labels.len()
        invariant
            i <= labels@.len(),
            too_many_labels(labels@, noun@, *limits) is None,
            first_too_long(labels@, *limits) == first_too_long(labels@.skip(i as int), *limits),
        decreases labels@.len() - i,
    {
        let name: &str = labels.name_at(i);
        let value: &str = labels.value_at(i);
        proof {
            assert(labels@.skip(i as int)[0] == labels@[i as int]);
            assert(labels@.skip(i as int).drop_first() =~= labels@.skip(i as int + 1));
        }
        if byte_len(name) > limits.max_label_name_bytes as usize {
            let mut detail: String = "label name ".to_owned();
            detail.append(quoted(name).as_str());
            detail.append(" exceeds max_label_name_bytes");
            return Some(Rejection::new(RejectReason::LabelNameTooLong, detail));
        }
        if byte_len(value) > limits.max_label_value_bytes as usize {
            let mut detail: String = "value of label ".to_owned();
            detail.append(quoted(name).as_str());
            detail.append(" exceeds max_label_value_bytes");
            return Some(Rejection::new(RejectReason::LabelValueTooLong, detail));
        }
        i += 1;
    }
    None
}

// ---------------------------------------------------------------------------
// Laws
// ---------------------------------------------------------------------------

/// Promotion keeps a label whose name is reserved, and keeps the order.
pub proof fn law_reserved_labels_are_kept(
    labels: Seq<Pair>,
    inherited: Seq<Pair>,
    names: Seq<Seq<char>>,
    reserved: Reserved,
    name: Seq<char>,
)
    requires
        crate::labels::sorted(labels),
        reserved.holds(name),
    ensures
        crate::labels::sorted(promoted(labels, inherited, names, reserved)),
        lookup(promoted(labels, inherited, names, reserved), name) == lookup(labels, name),
    decreases names.len(),
{
    if names.len() > 0 {
        law_reserved_labels_are_kept(labels, inherited, names.drop_last(), reserved, name);
        let sofar = promoted(labels, inherited, names.drop_last(), reserved);
        let added = sanitized(names.last());
        match lookup(inherited, added) {
            Some(value) => {
                crate::labels::law_insert_keeps_order(sofar, added, value);
                crate::labels::law_insert_then_get(sofar, added, value, name);
            },
            None => {},
        }
    }
}

/// Labels that are not refused keep to every limit.
pub proof fn law_accepted_labels_keep_to_the_limits(
    labels: Seq<Pair>,
    noun: Seq<char>,
    limits: LimitsConfig,
)
    ensures
        labels_rejected(labels, noun, limits) is None <==> labels.len()
            <= limits.max_labels_per_series && (forall|i: int|
            0 <= i < labels.len() ==> utf8_len((#[trigger] labels[i]).0)
                <= limits.max_label_name_bytes && utf8_len(labels[i].1)
                <= limits.max_label_value_bytes),
{
    lemma_first_too_long(labels, limits);
}

proof fn lemma_first_too_long(labels: Seq<Pair>, limits: LimitsConfig)
    ensures
        first_too_long(labels, limits) is None <==> (forall|i: int|
            0 <= i < labels.len() ==> utf8_len((#[trigger] labels[i]).0)
                <= limits.max_label_name_bytes && utf8_len(labels[i].1)
                <= limits.max_label_value_bytes),
    decreases labels.len(),
{
    if labels.len() > 0 {
        let rest = labels.drop_first();
        lemma_first_too_long(rest, limits);
        assert(forall|i: int| 0 <= i < rest.len() ==> rest[i] == #[trigger] labels[i + 1]);
        if first_too_long(labels, limits) is None {
            assert forall|i: int| 0 <= i < labels.len() implies utf8_len((#[trigger] labels[i]).0)
                <= limits.max_label_name_bytes && utf8_len(labels[i].1)
                <= limits.max_label_value_bytes by {
                if i > 0 {
                    assert(rest[i - 1] == labels[i]);
                }
            }
        } else if label_too_long(labels[0], limits) is None {
            let i = choose|i: int|
                0 <= i < rest.len() && !(utf8_len((#[trigger] rest[i]).0)
                    <= limits.max_label_name_bytes && utf8_len(rest[i].1)
                    <= limits.max_label_value_bytes);
            assert(rest[i] == labels[i + 1]);
        }
    }
}

} // verus!
