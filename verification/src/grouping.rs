//! Grouping and ordering by index.
use vstd::prelude::*;

use crate::labels::{
    labels_before, law_labels_order_total, law_labels_order_transitive, Labels, Pair,
};
use crate::text::{same, views};

verus! {

// ---------------------------------------------------------------------------
// Groups
// ---------------------------------------------------------------------------

/// Where item `i` belongs among groups of items: with the first group of its key, or
/// in a group of its own.
pub open spec fn placed<K>(groups: Seq<Seq<int>>, keys: Seq<K>, i: int) -> Seq<Seq<int>>
    decreases groups.len(),
{
    if groups.len() == 0 {
        seq![seq![i]]
    } else if keys[groups[0][0]] == keys[i] {
        seq![groups[0].push(i)] + groups.drop_first()
    } else {
        seq![groups[0]] + placed(groups.drop_first(), keys, i)
    }
}

/// The first `n` items grouped by key, groups and items in the order first seen.
pub open spec fn grouped<K>(keys: Seq<K>, n: nat) -> Seq<Seq<int>>
    decreases n,
{
    if n == 0 {
        Seq::empty()
    } else {
        placed(grouped(keys, (n - 1) as nat), keys, n - 1)
    }
}

/// Groups that are not empty and hold places below `n`, all of a group of one key.
pub open spec fn sound_groups<K>(groups: Seq<Seq<int>>, keys: Seq<K>, n: int) -> bool {
    forall|g: int|
        0 <= g < groups.len() ==> (#[trigger] groups[g]).len() > 0 && (forall|k: int|
            0 <= k < groups[g].len() ==> 0 <= #[trigger] groups[g][k] < n && keys[groups[g][k]]
                == keys[groups[g][0]])
}

proof fn lemma_placed<K>(groups: Seq<Seq<int>>, keys: Seq<K>, i: int)
    requires
        0 <= i,
        sound_groups(groups, keys, i),
    ensures
        sound_groups(placed(groups, keys, i), keys, i + 1),
    decreases groups.len(),
{
    let after = placed(groups, keys, i);
    if groups.len() == 0 {
    } else if keys[groups[0][0]] == keys[i] {
        assert forall|g: int| 0 <= g < after.len() implies (#[trigger] after[g]).len() > 0 && (
        forall|k: int|
            0 <= k < after[g].len() ==> 0 <= #[trigger] after[g][k] < i + 1
                && keys[after[g][k]] == keys[after[g][0]]) by {
            if g > 0 {
                assert(after[g] == groups[g]);
            }
        }
    } else {
        let rest = groups.drop_first();
        assert(sound_groups(rest, keys, i)) by {
            assert forall|g: int| 0 <= g < rest.len() implies (#[trigger] rest[g]).len() > 0 && (
            forall|k: int|
                0 <= k < rest[g].len() ==> 0 <= #[trigger] rest[g][k] < i && keys[rest[g][k]]
                    == keys[rest[g][0]]) by {
                assert(rest[g] == groups[g + 1]);
            }
        }
        lemma_placed(rest, keys, i);
        let u = placed(rest, keys, i);
        assert forall|g: int| 0 <= g < after.len() implies (#[trigger] after[g]).len() > 0 && (
        forall|k: int|
            0 <= k < after[g].len() ==> 0 <= #[trigger] after[g][k] < i + 1
                && keys[after[g][k]] == keys[after[g][0]]) by {
            if g > 0 {
                assert(after[g] == u[g - 1]);
            } else {
                assert(after[0] == groups[0]);
            }
        }
    }
}

/// Grouping is sound.
pub proof fn lemma_grouped<K>(keys: Seq<K>, n: nat)
    ensures
        sound_groups(grouped(keys, n), keys, n as int),
    decreases n,
{
    if n > 0 {
        lemma_grouped(keys, (n - 1) as nat);
        lemma_placed(grouped(keys, (n - 1) as nat), keys, n - 1);
    }
}

pub open spec fn numbers(group: Seq<usize>) -> Seq<int> {
    group.map_values(|i: usize| i as int)
}

pub open spec fn places(groups: Seq<Vec<usize>>) -> Seq<Seq<int>> {
    groups.map_values(|group: Vec<usize>| numbers(group@))
}

pub open spec fn label_views(streams: Seq<&Labels>) -> Seq<Seq<Pair>> {
    streams.map_values(|labels: &Labels| labels@)
}

/// Groups items by their labels, in the order first seen.
pub fn group_by_labels(streams: &Vec<&Labels>) -> (groups: Vec<Vec<usize>>)
    ensures
        places(groups@) == grouped(label_views(streams@), streams@.len()),
{
    let ghost labels = label_views(streams@);
    let mut groups: Vec<Vec<usize>> = Vec::new();
    let mut i: usize = 0;
    assert(places(groups@) =~= Seq::empty());
    while i < streams.len()
        invariant
            i <= streams@.len(),
            labels == label_views(streams@),
            places(groups@) == grouped(labels, i as nat),
        decreases streams@.len() - i,
    {
        proof {
            lemma_grouped(labels, i as nat);
        }
        place_by_labels(&mut groups, streams, i);
        i += 1;
    }
    groups
}

fn place_by_labels(groups: &mut Vec<Vec<usize>>, streams: &Vec<&Labels>, i: usize)
    requires
        i < streams@.len(),
        sound_groups(places(old(groups)@), label_views(streams@), i as int),
    ensures
        places(final(groups)@) == placed(places(old(groups)@), label_views(streams@), i as int),
{
    let ghost labels = label_views(streams@);
    let ghost before = places(groups@);
    let ghost goal = placed(before, labels, i as int);
    let mut g: usize = 0;
    assert(before.take(0) + placed(before.skip(0), labels, i as int) =~= goal) by {
        assert(before.skip(0) =~= before);
    }
    while g < groups.len()
        invariant
            g <= groups@.len(),
            i < streams@.len(),
            labels == label_views(streams@),
            before == places(groups@),
            before == places(old(groups)@),
            sound_groups(before, labels, i as int),
            goal == placed(before, labels, i as int),
            goal == before.take(g as int) + placed(before.skip(g as int), labels, i as int),
        decreases groups@.len() - g,
    {
        proof {
            assert(before[g as int].len() > 0);
            assert(before[g as int][0] == groups@[g as int]@[0]);
            assert(before.skip(g as int)[0] == before[g as int]);
            assert(before.skip(g as int).drop_first() =~= before.skip(g as int + 1));
        }
        let first: usize = groups[g][0];
        if *streams[first] == *streams[i] {
            let mut members: Vec<usize> = Vec::new();
            members.append(&mut groups[g]);
            members.push(i);
            groups.set(g, members);
            assert(places(groups@) =~= before.take(g as int) + (seq![
                before[g as int].push(i as int),
            ] + before.skip(g as int + 1))) by {
                assert(numbers(groups@[g as int]@) =~= before[g as int].push(
                    i as int,
                ));
                assert forall|k: int| 0 <= k < before.len() && k != g implies places(groups@)[k]
                    == before[k] by {}
            }
            return;
        }
        assert(before.take(g as int) + (seq![before[g as int]] + placed(
            before.skip(g as int + 1),
            labels,
            i as int,
        )) =~= before.take(g as int + 1) + placed(before.skip(g as int + 1), labels, i as int));
        g += 1;
    }
    let mut own: Vec<usize> = Vec::new();
    own.push(i);
    groups.push(own);
    assert(places(groups@) =~= before.take(g as int) + seq![seq![i as int]]) by {
        assert(numbers(groups@.last()@) =~= seq![i as int]);
    }
}

/// Groups items by their text, in the order first seen.
pub fn group_by_text(keys: &Vec<&str>) -> (groups: Vec<Vec<usize>>)
    ensures
        places(groups@) == grouped(views(keys@), keys@.len()),
{
    let ghost texts = views(keys@);
    let mut groups: Vec<Vec<usize>> = Vec::new();
    let mut i: usize = 0;
    assert(places(groups@) =~= Seq::empty());
    while i < keys.len()
        invariant
            i <= keys@.len(),
            texts == views(keys@),
            places(groups@) == grouped(texts, i as nat),
        decreases keys@.len() - i,
    {
        proof {
            lemma_grouped(texts, i as nat);
        }
        place_by_text(&mut groups, keys, i);
        i += 1;
    }
    groups
}

fn place_by_text(groups: &mut Vec<Vec<usize>>, keys: &Vec<&str>, i: usize)
    requires
        i < keys@.len(),
        sound_groups(places(old(groups)@), views(keys@), i as int),
    ensures
        places(final(groups)@) == placed(places(old(groups)@), views(keys@), i as int),
{
    let ghost texts = views(keys@);
    let ghost before = places(groups@);
    let ghost goal = placed(before, texts, i as int);
    let mut g: usize = 0;
    assert(before.take(0) + placed(before.skip(0), texts, i as int) =~= goal) by {
        assert(before.skip(0) =~= before);
    }
    while g < groups.len()
        invariant
            g <= groups@.len(),
            i < keys@.len(),
            texts == views(keys@),
            before == places(groups@),
            before == places(old(groups)@),
            sound_groups(before, texts, i as int),
            goal == placed(before, texts, i as int),
            goal == before.take(g as int) + placed(before.skip(g as int), texts, i as int),
        decreases groups@.len() - g,
    {
        proof {
            assert(before[g as int].len() > 0);
            assert(before[g as int][0] == groups@[g as int]@[0]);
            assert(before.skip(g as int)[0] == before[g as int]);
            assert(before.skip(g as int).drop_first() =~= before.skip(g as int + 1));
        }
        let first: usize = groups[g][0];
        if same(keys[first], keys[i]) {
            let mut members: Vec<usize> = Vec::new();
            members.append(&mut groups[g]);
            members.push(i);
            groups.set(g, members);
            assert(places(groups@) =~= before.take(g as int) + (seq![
                before[g as int].push(i as int),
            ] + before.skip(g as int + 1))) by {
                assert(numbers(groups@[g as int]@) =~= before[g as int].push(
                    i as int,
                ));
                assert forall|k: int| 0 <= k < before.len() && k != g implies places(groups@)[k]
                    == before[k] by {}
            }
            return;
        }
        assert(before.take(g as int) + (seq![before[g as int]] + placed(
            before.skip(g as int + 1),
            texts,
            i as int,
        )) =~= before.take(g as int + 1) + placed(before.skip(g as int + 1), texts, i as int));
        g += 1;
    }
    let mut own: Vec<usize> = Vec::new();
    own.push(i);
    groups.push(own);
    assert(places(groups@) =~= before.take(g as int) + seq![seq![i as int]]) by {
        assert(numbers(groups@.last()@) =~= seq![i as int]);
    }
}

// ---------------------------------------------------------------------------
// Order
// ---------------------------------------------------------------------------

/// The places with `i` put before the first of them that it comes before.
pub open spec fn put_in_order(list: Seq<int>, i: int, less: spec_fn(int, int) -> bool) -> Seq<int>
    decreases list.len(),
{
    if list.len() == 0 {
        seq![i]
    } else if less(i, list[0]) {
        seq![i] + list
    } else {
        seq![list[0]] + put_in_order(list.drop_first(), i, less)
    }
}

/// The places below `n` in order, those of equal rank as they stood.
pub open spec fn ordered(n: nat, less: spec_fn(int, int) -> bool) -> Seq<int>
    decreases n,
{
    if n == 0 {
        Seq::empty()
    } else {
        put_in_order(ordered((n - 1) as nat, less), n - 1, less)
    }
}

/// Whether `before` decides as `less` does, for places below `n`.
pub open spec fn decides<F: Fn(usize, usize) -> bool>(
    before: &F,
    n: nat,
    less: spec_fn(int, int) -> bool,
) -> bool {
    forall|i: usize, j: usize|
        i < n && j < n ==> #[trigger] before.requires((i, j)) && (forall|r: bool|
            before.ensures((i, j), r) ==> r == less(i as int, j as int))
}

/// Orders the places below `n`, those of equal rank as they stood.
pub(crate) fn order<F: Fn(usize, usize) -> bool>(
    n: usize,
    before: &F,
    Ghost(less): Ghost<spec_fn(int, int) -> bool>,
) -> (list: Vec<usize>)
    requires
        decides(before, n as nat, less),
    ensures
        numbers(list@) == ordered(n as nat, less),
        list@.len() == n,
        forall|k: int| 0 <= k < list@.len() ==> #[trigger] list@[k] < n,
{
    let mut list: Vec<usize> = Vec::new();
    let mut i: usize = 0;
    assert(numbers(list@) =~= Seq::empty());
    while i < n
        invariant
            i <= n,
            decides(before, n as nat, less),
            numbers(list@) == ordered(i as nat, less),
            list@.len() == i,
            forall|k: int| 0 <= k < list@.len() ==> #[trigger] list@[k] < n,
        decreases n - i,
    {
        let ghost s = numbers(list@);
        let ghost goal = put_in_order(s, i as int, less);
        let mut at: usize = 0;
        assert(s.skip(0) =~= s);
        assert(s.take(0) + goal =~= goal);
        let mut placed: bool = false;
        while at < list.len() && !placed
            invariant
                i < n,
                at <= list@.len(),
                decides(before, n as nat, less),
                s == numbers(list@),
                forall|k: int| 0 <= k < list@.len() ==> #[trigger] list@[k] < n,
                goal == s.take(at as int) + put_in_order(s.skip(at as int), i as int, less),
                placed ==> at < list@.len() && less(i as int, s[at as int]),
            decreases list@.len() - at + (if placed { 0int } else { 1 }),
        {
            let other: usize = list[at];
            proof {
                assert(s[at as int] == other);
                assert(s.skip(at as int)[0] == other);
                assert(s.skip(at as int).drop_first() =~= s.skip(at as int + 1));
            }
            assert(before.requires((i, other)));
            if before(i, other) {
                placed = true;
            } else {
                proof {
                    assert(s.take(at as int) + (seq![s[at as int]] + put_in_order(
                        s.skip(at as int + 1),
                        i as int,
                        less,
                    )) =~= s.take(at as int + 1) + put_in_order(
                        s.skip(at as int + 1),
                        i as int,
                        less,
                    ));
                }
                at += 1;
            }
        }
        proof {
            if at < s.len() {
                assert(s.skip(at as int)[0] == s[at as int]);
            }
        }
        list.insert(at, i);
        assert(numbers(list@) =~= s.take(at as int) + (seq![i as int] + s.skip(at as int)));
        assert(s.skip(at as int).len() == 0 ==> seq![i as int] + s.skip(at as int) =~= seq![
            i as int,
        ]);
        i += 1;
    }
    list
}

// ---------------------------------------------------------------------------
// Groups in the order of their labels
// ---------------------------------------------------------------------------

/// The items at some places.
pub open spec fn chosen<V>(items: Seq<V>, places: Seq<int>) -> Seq<V> {
    places.map_values(|i: int| items[i])
}

/// The places of label sets, in the order of label sets.
pub open spec fn by_labels(streams: Seq<Seq<Pair>>) -> Seq<int> {
    ordered(streams.len(), |a: int, b: int| labels_before(streams[a], streams[b]))
}

/// The label set of each group.
pub open spec fn heads(streams: Seq<Seq<Pair>>, groups: Seq<Seq<int>>) -> Seq<Seq<Pair>> {
    groups.map_values(|group: Seq<int>| streams[group[0]])
}

/// Items grouped by their labels, the groups in the order of label sets.
pub open spec fn sorted_groups(streams: Seq<Seq<Pair>>) -> Seq<Seq<int>> {
    let groups = grouped(streams, streams.len());
    chosen(groups, by_labels(heads(streams, groups)))
}

/// Ordered places are places.
pub proof fn lemma_ordered_places(n: nat, less: spec_fn(int, int) -> bool)
    ensures
        ordered(n, less).len() == n,
        forall|k: int| 0 <= k < n ==> 0 <= #[trigger] ordered(n, less)[k] < n,
{
    broadcast use vstd::seq_lib::group_to_multiset_ensures;

    law_ordering_keeps_every_place(n, less);
    let list = ordered(n, less);
    assert forall|k: int| 0 <= k < n implies 0 <= #[trigger] list[k] < n by {
        assert(list.contains(list[k]));
        assert(list.to_multiset().count(list[k]) > 0);
        assert(all_places(n).contains(list[k]));
    }
}

/// Groups in the order of label sets are sound.
pub proof fn lemma_sorted_groups(streams: Seq<Seq<Pair>>)
    ensures
        sound_groups(sorted_groups(streams), streams, streams.len() as int),
{
    let groups = grouped(streams, streams.len());
    let own = heads(streams, groups);
    lemma_grouped(streams, streams.len());
    lemma_ordered_places(own.len(), |a: int, b: int| labels_before(own[a], own[b]));
    let order = by_labels(own);
    let all = sorted_groups(streams);
    assert forall|g: int| 0 <= g < all.len() implies (#[trigger] all[g]).len() > 0 && (forall|k: int|
        0 <= k < all[g].len() ==> 0 <= #[trigger] all[g][k] < streams.len() && streams[all[g][k]]
            == streams[all[g][0]]) by {
        assert(0 <= order[g] < groups.len());
        assert(all[g] == groups[order[g]]);
    }
}

/// Orders label sets.
pub fn order_by_labels(streams: &Vec<&Labels>) -> (list: Vec<usize>)
    ensures
        numbers(list@) == by_labels(label_views(streams@)),
        list@.len() == streams@.len(),
        forall|k: int| 0 <= k < list@.len() ==> #[trigger] list@[k] < streams@.len(),
{
    let ghost labels = label_views(streams@);
    let ghost less = |a: int, b: int| labels_before(labels[a], labels[b]);
    let before = |a: usize, b: usize| -> (r: bool)
        requires
            a < streams@.len(),
            b < streams@.len(),
        ensures
            r == labels_before(streams@[a as int]@, streams@[b as int]@),
        { streams[a].comes_before(streams[b]) };
    order(streams.len(), &before, Ghost(less))
}

/// Groups items by their labels, the groups in the order of label sets.
pub fn sort_groups(streams: &Vec<&Labels>) -> (sorted: Vec<Vec<usize>>)
    ensures
        places(sorted@) == sorted_groups(label_views(streams@)),
{
    let ghost labels = label_views(streams@);
    let groups: Vec<Vec<usize>> = group_by_labels(streams);
    let ghost split = grouped(labels, labels.len());
    proof {
        lemma_grouped(labels, labels.len());
    }
    let mut own: Vec<&Labels> = Vec::new();
    let mut g: usize = 0;
    while g < groups.len()
        invariant
            g <= groups@.len(),
            labels == label_views(streams@),
            split == places(groups@),
            sound_groups(split, labels, labels.len() as int),
            own@.len() == g,
            forall|j: int| 0 <= j < g ==> (#[trigger] own@[j])@ == heads(labels, split)[j],
        decreases groups@.len() - g,
    {
        proof {
            assert(split[g as int] == numbers(groups@[g as int]@));
            assert(split[g as int].len() > 0);
            assert(split[g as int][0] == groups@[g as int]@[0]);
        }
        own.push(streams[groups[g][0]]);
        g += 1;
    }
    assert(label_views(own@) =~= heads(labels, split));
    let list: Vec<usize> = order_by_labels(&own);
    let mut sorted: Vec<Vec<usize>> = Vec::new();
    let mut k: usize = 0;
    while k < list.len()
        invariant
            k <= list@.len(),
            list@.len() == groups@.len(),
            split == places(groups@),
            numbers(list@) == by_labels(heads(labels, split)),
            forall|k: int| 0 <= k < list@.len() ==> #[trigger] list@[k] < groups@.len(),
            sorted@.len() == k,
            forall|j: int|
                0 <= j < k ==> numbers((#[trigger] sorted@[j])@) == split[by_labels(
                    heads(labels, split),
                )[j]],
        decreases list@.len() - k,
    {
        assert(list@[k as int] < groups@.len());
        assert(numbers(list@)[k as int] == list@[k as int]);
        sorted.push(copy_places(&groups[list[k]]));
        k += 1;
    }
    assert(places(sorted@) =~= sorted_groups(labels));
    sorted
}

/// The same places.
pub fn copy_places(group: &Vec<usize>) -> (copy: Vec<usize>)
    ensures
        copy@ == group@,
{
    let mut copy: Vec<usize> = Vec::new();
    let mut i: usize = 0;
    while i < group.len()
        invariant
            i <= group@.len(),
            copy@ == group@.take(i as int),
        decreases group@.len() - i,
    {
        copy.push(group[i]);
        i += 1;
        assert(copy@ =~= group@.take(i as int));
    }
    assert(copy@ =~= group@);
    copy
}

// ---------------------------------------------------------------------------
// Laws
// ---------------------------------------------------------------------------

proof fn lemma_put_in_order(list: Seq<int>, i: int, less: spec_fn(int, int) -> bool)
    ensures
        put_in_order(list, i, less).to_multiset() == list.to_multiset().insert(i),
        put_in_order(list, i, less).len() == list.len() + 1,
    decreases list.len(),
{
    let t = put_in_order(list, i, less);
    broadcast use vstd::seq_lib::group_to_multiset_ensures;

    if list.len() == 0 {
        assert(t =~= list.push(i));
    } else if less(i, list[0]) {
        vstd::seq_lib::lemma_multiset_commutative(seq![i], list);
        assert(seq![i] =~= Seq::empty().push(i));
        assert(t.to_multiset() =~= list.to_multiset().insert(i));
    } else {
        let rest = list.drop_first();
        lemma_put_in_order(rest, i, less);
        vstd::seq_lib::lemma_multiset_commutative(seq![list[0]], put_in_order(rest, i, less));
        vstd::seq_lib::lemma_multiset_commutative(seq![list[0]], rest);
        assert(list =~= seq![list[0]] + rest);
        assert(seq![list[0]] =~= Seq::empty().push(list[0]));
        assert(t.to_multiset() =~= list.to_multiset().insert(i));
    }
}

/// Every place below `n`, once.
pub open spec fn all_places(n: nat) -> Seq<int> {
    Seq::new(n, |i: int| i)
}

/// Ordering loses no place and repeats none.
pub proof fn law_ordering_keeps_every_place(n: nat, less: spec_fn(int, int) -> bool)
    ensures
        ordered(n, less).to_multiset() == all_places(n).to_multiset(),
        ordered(n, less).len() == n,
    decreases n,
{
    broadcast use vstd::seq_lib::group_to_multiset_ensures;

    if n == 0 {
        assert(ordered(n, less) =~= all_places(n));
    } else {
        law_ordering_keeps_every_place((n - 1) as nat, less);
        lemma_put_in_order(ordered((n - 1) as nat, less), n - 1, less);
        assert(all_places(n) =~= all_places((n - 1) as nat).push(n - 1));
    }
}

/// Ordered by a ranking, no place comes before one that ranks before it.
pub proof fn law_ordering_orders(n: nat, less: spec_fn(int, int) -> bool)
    requires
        forall|i: int, j: int, k: int|
            !(#[trigger] less(j, i)) && !(#[trigger] less(k, j)) ==> !less(k, i),
        forall|i: int, j: int| #[trigger] less(i, j) ==> !less(j, i),
    ensures
        forall|a: int, b: int|
            0 <= a < b < ordered(n, less).len() ==> !less(
                #[trigger] ordered(n, less)[b],
                #[trigger] ordered(n, less)[a],
            ),
    decreases n,
{
    if n > 0 {
        law_ordering_orders((n - 1) as nat, less);
        lemma_put_keeps_order(ordered((n - 1) as nat, less), n - 1, less);
    }
}

spec fn is_ordered(list: Seq<int>, less: spec_fn(int, int) -> bool) -> bool {
    forall|a: int, b: int|
        0 <= a < b < list.len() ==> !less(#[trigger] list[b], #[trigger] list[a])
}

proof fn lemma_put_keeps_order(list: Seq<int>, i: int, less: spec_fn(int, int) -> bool)
    requires
        is_ordered(list, less),
        forall|i: int, j: int, k: int|
            !(#[trigger] less(j, i)) && !(#[trigger] less(k, j)) ==> !less(k, i),
        forall|i: int, j: int| #[trigger] less(i, j) ==> !less(j, i),
    ensures
        is_ordered(put_in_order(list, i, less), less),
        forall|b: int|
            0 <= b < put_in_order(list, i, less).len() ==> (#[trigger] put_in_order(
                list,
                i,
                less,
            )[b] == i || exists|c: int|
                0 <= c < list.len() && list[c] == put_in_order(list, i, less)[b]),
    decreases list.len(),
{
    let t = put_in_order(list, i, less);
    if list.len() == 0 {
    } else if less(i, list[0]) {
        assert(forall|b: int| 0 < b < t.len() ==> t[b] == list[b - 1]);
        assert forall|a: int, b: int| 0 <= a < b < t.len() implies !less(
            #[trigger] t[b],
            #[trigger] t[a],
        ) by {
            if a == 0 {
                assert(!less(list[0], i));
                if b > 1 {
                    assert(!less(list[b - 1], list[0]));
                }
            } else {
                assert(!less(list[b - 1], list[a - 1]));
            }
        }
    } else {
        let rest = list.drop_first();
        assert(is_ordered(rest, less)) by {
            assert forall|a: int, b: int| 0 <= a < b < rest.len() implies !less(
                #[trigger] rest[b],
                #[trigger] rest[a],
            ) by {
                assert(rest[a] == list[a + 1]);
                assert(rest[b] == list[b + 1]);
            }
        }
        lemma_put_keeps_order(rest, i, less);
        let u = put_in_order(rest, i, less);
        assert(forall|b: int| 0 < b < t.len() ==> t[b] == u[b - 1]);
        assert forall|a: int, b: int| 0 <= a < b < t.len() implies !less(
            #[trigger] t[b],
            #[trigger] t[a],
        ) by {
            if a == 0 {
                if u[b - 1] != i {
                    let c = choose|c: int| 0 <= c < rest.len() && rest[c] == u[b - 1];
                    assert(rest[c] == list[c + 1]);
                    assert(!less(list[c + 1], list[0]));
                }
            } else {
                assert(!less(u[b - 1], u[a - 1]));
            }
        }
        assert forall|b: int| 0 <= b < t.len() implies (#[trigger] t[b] == i || exists|c: int|
            0 <= c < list.len() && list[c] == t[b]) by {
            if b > 0 && u[b - 1] != i {
                let c = choose|c: int| 0 <= c < rest.len() && rest[c] == u[b - 1];
                assert(list[c + 1] == t[b]);
            } else if b == 0 {
                assert(list[0] == t[0]);
            }
        }
    }
}

/// Every item is in a group.
pub proof fn law_every_item_is_grouped<K>(keys: Seq<K>, n: nat, i: int)
    requires
        0 <= i < n,
    ensures
        exists|g: int, k: int|
            0 <= g < grouped(keys, n).len() && 0 <= k < grouped(keys, n)[g].len()
                && #[trigger] grouped(keys, n)[g][k] == i,
    decreases n,
{
    let before = grouped(keys, (n - 1) as nat);
    let after = grouped(keys, n);
    lemma_placed_holds(before, keys, n - 1);
    if i < n - 1 {
        law_every_item_is_grouped(keys, (n - 1) as nat, i);
        let (g, k) = choose|g: int, k: int|
            0 <= g < before.len() && 0 <= k < before[g].len() && #[trigger] before[g][k] == i;
        assert(k < before[g].len() <= after[g].len());
        assert(after[g][k] == i);
    }
}

proof fn lemma_placed_holds<K>(groups: Seq<Seq<int>>, keys: Seq<K>, i: int)
    ensures
        placed(groups, keys, i).len() >= groups.len(),
        forall|g: int|
            0 <= g < groups.len() ==> (#[trigger] groups[g]).len() <= placed(groups, keys, i)[g].len(),
        forall|g: int, k: int|
            0 <= g < groups.len() && 0 <= k < groups[g].len() ==> placed(groups, keys, i)[g][k]
                == #[trigger] groups[g][k],
        exists|g: int, k: int|
            0 <= g < placed(groups, keys, i).len() && 0 <= k < placed(groups, keys, i)[g].len()
                && #[trigger] placed(groups, keys, i)[g][k] == i,
    decreases groups.len(),
{
    let after = placed(groups, keys, i);
    if groups.len() == 0 {
        assert(after[0][0] == i);
    } else if keys[groups[0][0]] == keys[i] {
        assert(after[0][groups[0].len() as int] == i);
        assert forall|g: int| 0 < g < groups.len() implies after[g] == #[trigger] groups[g] by {}
    } else {
        let rest = groups.drop_first();
        lemma_placed_holds(rest, keys, i);
        let t = placed(rest, keys, i);
        assert forall|g: int| 0 <= g < groups.len() implies (#[trigger] groups[g]).len()
            <= after[g].len() && (forall|k: int|
            0 <= k < groups[g].len() ==> after[g][k] == #[trigger] groups[g][k]) by {
            if g > 0 {
                assert(rest[g - 1] == groups[g]);
                assert(after[g] == t[g - 1]);
                assert forall|k: int| 0 <= k < groups[g].len() implies after[g][k]
                    == #[trigger] groups[g][k] by {
                    assert(t[g - 1][k] == rest[g - 1][k]);
                }
            }
        }
        let (g, k) = choose|g: int, k: int|
            0 <= g < t.len() && 0 <= k < t[g].len() && #[trigger] t[g][k] == i;
        assert(after[g + 1] == t[g]);
        assert(after[g + 1][k] == i);
    }
}

/// No two groups have the same key.
pub proof fn law_groups_have_distinct_keys<K>(keys: Seq<K>, n: nat)
    ensures
        forall|a: int, b: int|
            0 <= a < b < grouped(keys, n).len() ==> keys[(#[trigger] grouped(keys, n)[a])[0]]
                != keys[(#[trigger] grouped(keys, n)[b])[0]],
    decreases n,
{
    if n > 0 {
        let before = grouped(keys, (n - 1) as nat);
        law_groups_have_distinct_keys(keys, (n - 1) as nat);
        lemma_grouped(keys, (n - 1) as nat);
        lemma_placed_distinct(before, keys, n - 1);
    }
}

spec fn distinct_heads<K>(groups: Seq<Seq<int>>, keys: Seq<K>) -> bool {
    forall|a: int, b: int|
        0 <= a < b < groups.len() ==> keys[(#[trigger] groups[a])[0]] != keys[(
        #[trigger] groups[b])[0]]
}

proof fn lemma_placed_distinct<K>(groups: Seq<Seq<int>>, keys: Seq<K>, i: int)
    requires
        distinct_heads(groups, keys),
        forall|g: int| 0 <= g < groups.len() ==> (#[trigger] groups[g]).len() > 0,
    ensures
        distinct_heads(placed(groups, keys, i), keys),
        forall|g: int|
            0 <= g < placed(groups, keys, i).len() ==> (#[trigger] placed(
                groups,
                keys,
                i,
            )[g]).len() > 0 && (keys[placed(groups, keys, i)[g][0]] == keys[i] || (g < groups.len()
                && placed(groups, keys, i)[g][0] == groups[g][0])),
    decreases groups.len(),
{
    let after = placed(groups, keys, i);
    if groups.len() == 0 {
    } else if keys[groups[0][0]] == keys[i] {
        assert forall|g: int| 0 < g < groups.len() implies after[g] == #[trigger] groups[g] by {}
        assert(after[0][0] == groups[0][0]);
        assert forall|a: int, b: int| 0 <= a < b < after.len() implies keys[(#[trigger] after[a])[0]]
            != keys[(#[trigger] after[b])[0]] by {
            assert(keys[groups[a][0]] != keys[groups[b][0]]);
        }
    } else {
        let rest = groups.drop_first();
        assert forall|a: int, b: int| 0 <= a < b < rest.len() implies keys[(#[trigger] rest[a])[0]]
            != keys[(#[trigger] rest[b])[0]] by {
            assert(rest[a] == groups[a + 1] && rest[b] == groups[b + 1]);
        }
        assert forall|g: int| 0 <= g < rest.len() implies (#[trigger] rest[g]).len() > 0 by {
            assert(rest[g] == groups[g + 1]);
        }
        lemma_placed_distinct(rest, keys, i);
        let t = placed(rest, keys, i);
        assert forall|g: int| 0 <= g < after.len() implies (#[trigger] after[g]).len() > 0 && (
        keys[after[g][0]] == keys[i] || (g < groups.len() && after[g][0] == groups[g][0])) by {
            if g > 0 {
                assert(after[g] == t[g - 1]);
                if g < groups.len() {
                    assert(rest[g - 1] == groups[g]);
                }
            }
        }
        assert forall|a: int, b: int| 0 <= a < b < after.len() implies keys[(#[trigger] after[a])[0]]
            != keys[(#[trigger] after[b])[0]] by {
            assert(after[b] == t[b - 1]);
            if a > 0 {
                assert(after[a] == t[a - 1]);
            } else {
                if keys[after[b][0]] != keys[i] {
                    assert(t[b - 1][0] == rest[b - 1][0]);
                    assert(rest[b - 1] == groups[b]);
                    assert(keys[groups[0][0]] != keys[groups[b][0]]);
                }
            }
        }
    }
}

/// Sorted groups come in the order of their label sets, each label set once, and hold
/// every item.
pub proof fn law_sorted_groups(streams: Seq<Seq<Pair>>)
    ensures
        forall|a: int, b: int|
            0 <= a < b < sorted_groups(streams).len() ==> labels_before(
                streams[(#[trigger] sorted_groups(streams)[a])[0]],
                streams[(#[trigger] sorted_groups(streams)[b])[0]],
            ),
        forall|i: int|
            0 <= i < streams.len() ==> exists|g: int|
                0 <= g < sorted_groups(streams).len() && streams[(#[trigger] sorted_groups(
                    streams,
                )[g])[0]] == #[trigger] streams[i] && sorted_groups(streams)[g].contains(i),
{
    let groups = grouped(streams, streams.len());
    let own = heads(streams, groups);
    let less = |a: int, b: int| labels_before(own[a], own[b]);
    let list = by_labels(own);
    let sorted = sorted_groups(streams);
    lemma_grouped(streams, streams.len());
    law_groups_have_distinct_keys(streams, streams.len());
    lemma_ordered_places(own.len(), less);
    assert forall|i: int, j: int, k: int|
        !(#[trigger] less(j, i)) && !(#[trigger] less(k, j)) implies !less(k, i) by {
        law_labels_order_total(own[i], own[j]);
        law_labels_order_total(own[j], own[k]);
        law_labels_order_total(own[i], own[k]);
        if labels_before(own[i], own[j]) && labels_before(own[j], own[k]) {
            law_labels_order_transitive(own[i], own[j], own[k]);
        }
    }
    assert forall|i: int, j: int| #[trigger] less(i, j) implies !less(j, i) by {
        law_labels_order_total(own[i], own[j]);
    }
    law_ordering_orders(own.len(), less);
    law_ordering_keeps_every_place(own.len(), less);
    lemma_distinct_places(own.len(), less);
    assert forall|a: int, b: int| 0 <= a < b < sorted.len() implies labels_before(
        streams[(#[trigger] sorted[a])[0]],
        streams[(#[trigger] sorted[b])[0]],
    ) by {
        assert(!less(list[b], list[a]));
        let (p, q) = (list[a], list[b]);
        assert(0 <= p < own.len() && 0 <= q < own.len() && p != q);
        assert(sorted[a] == groups[p] && sorted[b] == groups[q]);
        if p < q {
            assert(streams[groups[p][0]] != streams[groups[q][0]]);
        } else {
            assert(streams[groups[q][0]] != streams[groups[p][0]]);
        }
        law_labels_order_total(own[p], own[q]);
    }
    assert forall|i: int| 0 <= i < streams.len() implies exists|g: int|
        0 <= g < sorted.len() && streams[(#[trigger] sorted[g])[0]] == #[trigger] streams[i]
            && sorted[g].contains(i) by {
        law_every_item_is_grouped(streams, streams.len(), i);
        let (g, k) = choose|g: int, k: int|
            0 <= g < groups.len() && 0 <= k < groups[g].len() && #[trigger] groups[g][k] == i;
        lemma_place_is_ordered(own.len(), less, g);
        let at = choose|at: int| 0 <= at < list.len() && list[at] == g;
        assert(sorted[at] == groups[g]);
        assert(streams[groups[g][k]] == streams[groups[g][0]]);
    }
}

/// Every place is among the ordered ones.
pub proof fn lemma_place_is_ordered(n: nat, less: spec_fn(int, int) -> bool, i: int)
    requires
        0 <= i < n,
    ensures
        exists|at: int| 0 <= at < ordered(n, less).len() && ordered(n, less)[at] == i,
{
    broadcast use vstd::seq_lib::group_to_multiset_ensures;

    law_ordering_keeps_every_place(n, less);
    assert(all_places(n)[i] == i);
    assert(all_places(n).contains(i));
    assert(all_places(n).to_multiset().count(i) > 0);
    assert(ordered(n, less).to_multiset().count(i) > 0);
    assert(ordered(n, less).contains(i));
}

pub proof fn lemma_distinct_places(n: nat, less: spec_fn(int, int) -> bool)
    ensures
        forall|a: int, b: int|
            0 <= a < b < ordered(n, less).len() ==> #[trigger] ordered(n, less)[a]
                != #[trigger] ordered(n, less)[b],
{
    law_ordering_keeps_every_place(n, less);
    let list = ordered(n, less);
    let all = all_places(n);
    all.lemma_multiset_has_no_duplicates();
    assert forall|x: int| list.to_multiset().contains(x) implies list.to_multiset().count(x)
        == 1 by {
        assert(all.to_multiset().count(x) == 1);
    }
    list.lemma_multiset_has_no_duplicates_conv();
}

/// Orders that agree on the places below `n` order them alike.
pub proof fn lemma_same_order(
    n: nat,
    less: spec_fn(int, int) -> bool,
    other: spec_fn(int, int) -> bool,
)
    requires
        forall|i: int, j: int|
            0 <= i < n && 0 <= j < n ==> #[trigger] less(i, j) == other(i, j),
    ensures
        ordered(n, less) == ordered(n, other),
    decreases n,
{
    if n > 0 {
        lemma_same_order((n - 1) as nat, less, other);
        lemma_ordered_places((n - 1) as nat, less);
        lemma_same_place(ordered((n - 1) as nat, less), n - 1, n, less, other);
    }
}

proof fn lemma_same_place(
    list: Seq<int>,
    i: int,
    n: nat,
    less: spec_fn(int, int) -> bool,
    other: spec_fn(int, int) -> bool,
)
    requires
        0 <= i < n,
        forall|k: int| 0 <= k < list.len() ==> 0 <= #[trigger] list[k] < n,
        forall|i: int, j: int|
            0 <= i < n && 0 <= j < n ==> #[trigger] less(i, j) == other(i, j),
    ensures
        put_in_order(list, i, less) == put_in_order(list, i, other),
    decreases list.len(),
{
    if list.len() > 0 {
        let rest = list.drop_first();
        assert(less(i, list[0]) == other(i, list[0]));
        assert forall|k: int| 0 <= k < rest.len() implies 0 <= #[trigger] rest[k] < n by {
            assert(rest[k] == list[k + 1]);
        }
        lemma_same_place(rest, i, n, less, other);
    }
}

/// The places below `n` with a key.
pub open spec fn places_with<K>(keys: Seq<K>, key: K, n: nat) -> Seq<int>
    decreases n,
{
    if n == 0 {
        Seq::empty()
    } else if keys[n - 1] == key {
        places_with(keys, key, (n - 1) as nat).push(n - 1)
    } else {
        places_with(keys, key, (n - 1) as nat)
    }
}

proof fn lemma_no_places<K>(keys: Seq<K>, key: K, n: nat)
    requires
        forall|i: int| 0 <= i < n ==> #[trigger] keys[i] != key,
    ensures
        places_with(keys, key, n) == Seq::<int>::empty(),
    decreases n,
{
    if n > 0 {
        lemma_no_places(keys, key, (n - 1) as nat);
    }
}

proof fn lemma_placed_at<K>(groups: Seq<Seq<int>>, keys: Seq<K>, i: int)
    requires
        distinct_heads(groups, keys),
        forall|g: int| 0 <= g < groups.len() ==> (#[trigger] groups[g]).len() > 0,
    ensures
        groups.len() <= placed(groups, keys, i).len() <= groups.len() + 1,
        forall|g: int|
            0 <= g < groups.len() ==> #[trigger] placed(groups, keys, i)[g] == (if keys[groups[g][0]]
                == keys[i] {
                groups[g].push(i)
            } else {
                groups[g]
            }),
        placed(groups, keys, i).len() == groups.len() + 1 ==> placed(groups, keys, i)[groups.len() as int]
            == seq![i] && forall|g: int|
            0 <= g < groups.len() ==> keys[(#[trigger] groups[g])[0]] != keys[i],
    decreases groups.len(),
{
    let after = placed(groups, keys, i);
    if groups.len() == 0 {
    } else if keys[groups[0][0]] == keys[i] {
        assert forall|g: int| 0 <= g < groups.len() implies #[trigger] after[g] == (if keys[groups[g][0]]
            == keys[i] {
            groups[g].push(i)
        } else {
            groups[g]
        }) by {
            if g > 0 {
                assert(keys[groups[0][0]] != keys[groups[g][0]]);
            }
        }
    } else {
        let rest = groups.drop_first();
        assert forall|a: int, b: int| 0 <= a < b < rest.len() implies keys[(#[trigger] rest[a])[0]]
            != keys[(#[trigger] rest[b])[0]] by {
            assert(rest[a] == groups[a + 1] && rest[b] == groups[b + 1]);
        }
        assert forall|g: int| 0 <= g < rest.len() implies (#[trigger] rest[g]).len() > 0 by {
            assert(rest[g] == groups[g + 1]);
        }
        lemma_placed_at(rest, keys, i);
        let more = placed(rest, keys, i);
        assert forall|g: int| 0 <= g < groups.len() implies #[trigger] after[g] == (if keys[groups[g][0]]
            == keys[i] {
            groups[g].push(i)
        } else {
            groups[g]
        }) by {
            if g > 0 {
                assert(rest[g - 1] == groups[g]);
                assert(after[g] == more[g - 1]);
            }
        }
        if after.len() == groups.len() + 1 {
            assert(after[groups.len() as int] == more[rest.len() as int]);
            assert forall|g: int| 0 <= g < groups.len() implies keys[(#[trigger] groups[g])[0]]
                != keys[i] by {
                if g > 0 {
                    assert(rest[g - 1] == groups[g]);
                }
            }
        }
    }
}

/// A group is all the places of its key, in order, and none else.
pub proof fn law_a_group_is_all_of_its_key<K>(keys: Seq<K>, n: nat)
    ensures
        forall|g: int|
            0 <= g < grouped(keys, n).len() ==> #[trigger] grouped(keys, n)[g] == places_with(
                keys,
                keys[grouped(keys, n)[g][0]],
                n,
            ),
    decreases n,
{
    if n > 0 {
        let m = (n - 1) as nat;
        let before = grouped(keys, m);
        let after = grouped(keys, n);
        law_a_group_is_all_of_its_key(keys, m);
        law_groups_have_distinct_keys(keys, m);
        lemma_grouped(keys, m);
        lemma_placed_at(before, keys, n - 1);
        assert forall|g: int| 0 <= g < after.len() implies #[trigger] after[g] == places_with(
            keys,
            keys[after[g][0]],
            n,
        ) by {
            if g < before.len() {
                assert(before[g].len() > 0);
                assert(after[g][0] == before[g][0]);
                assert(before[g] == places_with(keys, keys[before[g][0]], m));
            } else {
                assert(after[g] == seq![n - 1]);
                assert forall|i: int| 0 <= i < m implies #[trigger] keys[i] != keys[n - 1] by {
                    law_every_item_is_grouped(keys, m, i);
                    let (h, k) = choose|h: int, k: int|
                        0 <= h < before.len() && 0 <= k < before[h].len()
                            && #[trigger] before[h][k] == i;
                    assert(keys[before[h][k]] == keys[before[h][0]]);
                }
                lemma_no_places(keys, keys[n - 1], m);
                assert(after[g][0] == n - 1);
                assert(places_with(keys, keys[n - 1], n) =~= seq![n - 1]);
            }
        }
    }
}

/// What is chosen by the places of a key is what has it, in order.
pub proof fn lemma_chosen_with<K, V>(items: Seq<V>, keys: Seq<K>, key: K, has: spec_fn(V) -> bool)
    requires
        items.len() == keys.len(),
        forall|i: int| 0 <= i < items.len() ==> has(#[trigger] items[i]) == (keys[i] == key),
    ensures
        chosen(items, places_with(keys, key, items.len())) == items.filter(has),
    decreases items.len(),
{
    reveal(Seq::filter);
    let places = places_with(keys, key, items.len());
    if items.len() == 0 {
        assert(chosen(items, places) =~= items.filter(has));
    } else {
        let front = items.drop_last();
        let fewer = keys.drop_last();
        let m = front.len();
        assert forall|i: int| 0 <= i < front.len() implies has(#[trigger] front[i]) == (fewer[i]
            == key) by {
            assert(front[i] == items[i]);
        }
        lemma_chosen_with(front, fewer, key, has);
        lemma_same_places(keys, fewer, key, m);
        let rest = places_with(keys, key, m);
        lemma_places_below(keys, key, m);
        assert(chosen(items, rest) =~= chosen(front, rest));
        assert(has(items[items.len() - 1]) == (keys[items.len() - 1] == key));
        if keys[items.len() - 1] == key {
            assert(chosen(items, places) =~= chosen(items, rest).push(items.last()));
        }
    }
}

proof fn lemma_same_places<K>(keys: Seq<K>, fewer: Seq<K>, key: K, n: nat)
    requires
        n <= keys.len(),
        n <= fewer.len(),
        forall|i: int| 0 <= i < n ==> keys[i] == #[trigger] fewer[i],
    ensures
        places_with(keys, key, n) == places_with(fewer, key, n),
    decreases n,
{
    if n > 0 {
        lemma_same_places(keys, fewer, key, (n - 1) as nat);
        assert(keys[n - 1] == fewer[n - 1]);
    }
}

proof fn lemma_places_below<K>(keys: Seq<K>, key: K, n: nat)
    ensures
        forall|k: int|
            0 <= k < places_with(keys, key, n).len() ==> 0 <= #[trigger] places_with(keys, key, n)[k]
                < n,
    decreases n,
{
    if n > 0 {
        lemma_places_below(keys, key, (n - 1) as nat);
        let rest = places_with(keys, key, (n - 1) as nat);
        let all = places_with(keys, key, n);
        assert forall|k: int| 0 <= k < all.len() implies 0 <= #[trigger] all[k] < n by {
            if k < rest.len() {
                assert(all[k] == rest[k]);
            }
        }
    }
}

/// Groups in the order of label sets are all the places of their labels.
pub proof fn law_a_sorted_group_is_all_of_its_labels(streams: Seq<Seq<Pair>>)
    ensures
        forall|g: int|
            0 <= g < sorted_groups(streams).len() ==> #[trigger] sorted_groups(streams)[g]
                == places_with(streams, streams[sorted_groups(streams)[g][0]], streams.len()),
{
    let groups = grouped(streams, streams.len());
    let own = heads(streams, groups);
    let list = by_labels(own);
    law_a_group_is_all_of_its_key(streams, streams.len());
    lemma_ordered_places(own.len(), |a: int, b: int| labels_before(own[a], own[b]));
    let out = sorted_groups(streams);
    assert forall|g: int| 0 <= g < out.len() implies #[trigger] out[g] == places_with(
        streams,
        streams[out[g][0]],
        streams.len(),
    ) by {
        assert(0 <= list[g] < groups.len());
        assert(out[g] == groups[list[g]]);
    }
}

} // verus!
