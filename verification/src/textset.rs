//! Sets of texts, kept as sorted lists.
use vstd::prelude::*;

use crate::text::{
    before, lemma_text_before_total, lemma_text_before_transitive, same, text_before, views,
};

verus! {

/// The list with `text` in its place, once.
pub open spec fn with_text(list: Seq<Seq<char>>, text: Seq<char>) -> Seq<Seq<char>>
    decreases list.len(),
{
    if list.len() == 0 {
        seq![text]
    } else if list[0] == text {
        list
    } else if text_before(text, list[0]) {
        seq![text] + list
    } else {
        seq![list[0]] + with_text(list.drop_first(), text)
    }
}

/// The texts in order, each once.
pub open spec fn sorted_set(texts: Seq<Seq<char>>) -> Seq<Seq<char>>
    decreases texts.len(),
{
    if texts.len() == 0 {
        texts
    } else {
        with_text(sorted_set(texts.drop_last()), texts.last())
    }
}

/// In order, each text once.
pub open spec fn in_order(list: Seq<Seq<char>>) -> bool {
    forall|i: int, j: int| 0 <= i < j < list.len() ==> text_before(#[trigger] list[i], #[trigger] list[j])
}

/// Puts `text` in its place in a sorted list, unless it stands there already.
pub fn add_text(list: &mut Vec<String>, text: &str)
    ensures
        views(final(list)@) == with_text(views(old(list)@), text@),
{
    let ghost s = views(list@);
    let mut i: usize = 0;
    assert(s.take(0) + with_text(s.skip(0), text@) =~= with_text(s, text@)) by {
        assert(s.skip(0) =~= s);
    }
    while i < list.len() && !same(list[i].as_str(), text) && !before(text, list[i].as_str())
        invariant
            s == views(list@),
            i <= list@.len(),
            with_text(s, text@) == s.take(i as int) + with_text(s.skip(i as int), text@),
        decreases list@.len() - i,
    {
        proof {
            let rest = s.skip(i as int);
            assert(rest[0] == list@[i as int]@);
            assert(rest.drop_first() =~= s.skip(i as int + 1));
            assert(s.take(i as int) + (seq![rest[0]] + with_text(rest.drop_first(), text@))
                =~= s.take(i as int + 1) + with_text(s.skip(i as int + 1), text@));
        }
        i += 1;
    }
    if i < list.len() && same(list[i].as_str(), text) {
        proof {
            assert(s.skip(i as int)[0] == list@[i as int]@);
            assert(s =~= s.take(i as int) + s.skip(i as int));
        }
        return;
    }
    proof {
        if i < list@.len() {
            assert(s.skip(i as int)[0] == list@[i as int]@);
        }
    }
    list.insert(i, text.to_owned());
    assert(views(list@) =~= s.take(i as int) + (seq![text@] + s.skip(i as int)));
    assert(s.skip(i as int).len() == 0 ==> seq![text@] + s.skip(i as int) =~= seq![text@]);
}

/// The texts one behind the other, with `separator` between.
pub open spec fn joined(list: Seq<Seq<char>>, separator: Seq<char>) -> Seq<char>
    decreases list.len(),
{
    if list.len() == 0 {
        Seq::empty()
    } else if list.len() == 1 {
        list[0]
    } else {
        joined(list.drop_last(), separator) + separator + list.last()
    }
}

/// The texts one behind the other, with `separator` between.
pub fn join(list: &Vec<String>, separator: &str) -> (text: String)
    ensures
        text@ == joined(views(list@), separator@),
{
    let ghost s = views(list@);
    let mut text: String = String::new();
    let mut i: usize = 0;
    assert(s.take(0) =~= Seq::empty());
    assert(text@ =~= Seq::empty());
    while i < list.len()
        invariant
            s == views(list@),
            i <= list@.len(),
            text@ == joined(s.take(i as int), separator@),
        decreases list@.len() - i,
    {
        proof {
            assert(s.take(i as int + 1).drop_last() =~= s.take(i as int));
            assert(s.take(i as int + 1).last() == list@[i as int]@);
            assert(i == 0 ==> text@ + list@[i as int]@ =~= list@[i as int]@);
        }
        if i > 0 {
            text.append(separator);
        }
        text.append(list[i].as_str());
        i += 1;
    }
    assert(s.take(i as int) =~= s);
    text
}

// ---------------------------------------------------------------------------
// Laws
// ---------------------------------------------------------------------------

/// Adding a text keeps the order, adds that text and no other, and loses none.
pub proof fn law_add_text(list: Seq<Seq<char>>, text: Seq<char>)
    requires
        in_order(list),
    ensures
        in_order(with_text(list, text)),
        forall|other: Seq<char>| #[trigger]
            with_text(list, text).contains(other) <==> other == text || list.contains(other),
    decreases list.len(),
{
    let t = with_text(list, text);
    if list.len() == 0 {
        assert(t[0] == text);
    } else if list[0] == text {
        assert(list.contains(text));
    } else {
        let rest = list.drop_first();
        assert forall|i: int, j: int| 0 <= i < j < rest.len() implies text_before(
            #[trigger] rest[i],
            #[trigger] rest[j],
        ) by {
            assert(rest[i] == list[i + 1]);
            assert(rest[j] == list[j + 1]);
        }
        if text_before(text, list[0]) {
            assert(t[0] == text);
            assert(forall|i: int| 0 < i < t.len() ==> t[i] == list[i - 1]);
            assert forall|j: int| 0 < j < t.len() implies text_before(text, #[trigger] t[j]) by {
                if j > 1 {
                    lemma_text_before_transitive(text, list[0], list[j - 1]);
                }
            }
            assert forall|other: Seq<char>| #[trigger]
                t.contains(other) <==> other == text || list.contains(other) by {
                if list.contains(other) {
                    let k = choose|k: int| 0 <= k < list.len() && list[k] == other;
                    assert(t[k + 1] == other);
                }
                if t.contains(other) {
                    let k = choose|k: int| 0 <= k < t.len() && t[k] == other;
                    if k > 0 {
                        assert(list[k - 1] == other);
                    }
                }
            }
        } else {
            lemma_text_before_total(text, list[0]);
            law_add_text(rest, text);
            let u = with_text(rest, text);
            assert(forall|i: int| 0 < i < t.len() ==> t[i] == u[i - 1]);
            assert forall|j: int| 0 < j < t.len() implies text_before(t[0], #[trigger] t[j]) by {
                assert(u.contains(u[j - 1]));
                if u[j - 1] != text {
                    let k = choose|k: int| 0 <= k < rest.len() && rest[k] == u[j - 1];
                    assert(rest[k] == list[k + 1]);
                }
            }
            assert forall|other: Seq<char>| #[trigger]
                t.contains(other) <==> other == text || list.contains(other) by {
                if list.contains(other) {
                    let k = choose|k: int| 0 <= k < list.len() && list[k] == other;
                    if k == 0 {
                        assert(t[0] == other);
                    } else {
                        assert(rest[k - 1] == other);
                        assert(u.contains(other));
                        let m = choose|m: int| 0 <= m < u.len() && u[m] == other;
                        assert(t[m + 1] == other);
                    }
                }
                if other == text {
                    assert(u.contains(other));
                    let m = choose|m: int| 0 <= m < u.len() && u[m] == other;
                    assert(t[m + 1] == other);
                }
                if t.contains(other) {
                    let k = choose|k: int| 0 <= k < t.len() && t[k] == other;
                    if k == 0 {
                        assert(list[0] == other);
                    } else {
                        assert(u[k - 1] == other);
                        assert(u.contains(other));
                        if other != text {
                            assert(rest.contains(other));
                            let m = choose|m: int| 0 <= m < rest.len() && rest[m] == other;
                            assert(list[m + 1] == other);
                        }
                    }
                }
            }
        }
    }
}

/// A sorted set is in order, and holds the texts that it was made from and no others.
pub proof fn law_sorted_set(texts: Seq<Seq<char>>)
    ensures
        in_order(sorted_set(texts)),
        forall|text: Seq<char>| #[trigger] sorted_set(texts).contains(text) <==> texts.contains(text),
    decreases texts.len(),
{
    if texts.len() > 0 {
        let rest = texts.drop_last();
        law_sorted_set(rest);
        law_add_text(sorted_set(rest), texts.last());
        assert forall|text: Seq<char>| #[trigger]
            sorted_set(texts).contains(text) <==> texts.contains(text) by {
            if texts.contains(text) {
                let k = choose|k: int| 0 <= k < texts.len() && texts[k] == text;
                if k < rest.len() {
                    assert(rest[k] == text);
                    assert(sorted_set(rest).contains(text));
                }
            }
            if sorted_set(rest).contains(text) {
                let k = choose|k: int| 0 <= k < rest.len() && rest[k] == text;
                assert(texts[k] == text);
            }
            assert(texts[texts.len() - 1] == texts.last());
        }
    }
}

} // verus!
