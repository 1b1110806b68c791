//! Facts about sequences that the other modules rest on.
use vstd::prelude::*;

verus! {

/// A filter keeps apart what a key told apart.
pub proof fn lemma_filter_keeps_distinct<A, K>(
    list: Seq<A>,
    pred: spec_fn(A) -> bool,
    key: spec_fn(A) -> K,
)
    requires
        forall|i: int, j: int|
            0 <= i < j < list.len() ==> key(#[trigger] list[i]) != key(#[trigger] list[j]),
    ensures
        forall|i: int, j: int|
            0 <= i < j < list.filter(pred).len() ==> key(#[trigger] list.filter(pred)[i]) != key(
                #[trigger] list.filter(pred)[j],
            ),
    decreases list.len(),
{
    reveal(Seq::filter);
    if list.len() > 0 {
        let rest = list.drop_last();
        let last = list.last();
        assert forall|i: int, j: int| 0 <= i < j < rest.len() implies key(#[trigger] rest[i])
            != key(#[trigger] rest[j]) by {
            assert(rest[i] == list[i] && rest[j] == list[j]);
        }
        lemma_filter_keeps_distinct(rest, pred, key);
        let sub = rest.filter(pred);
        let out = list.filter(pred);
        if pred(last) {
            assert(out == sub.push(last));
            assert forall|i: int, j: int| 0 <= i < j < out.len() implies key(#[trigger] out[i])
                != key(#[trigger] out[j]) by {
                if j < sub.len() {
                    assert(out[i] == sub[i] && out[j] == sub[j]);
                } else {
                    assert(out[i] == sub[i]);
                    assert(sub.contains(sub[i]));
                    rest.lemma_filter_contains_rev(pred, sub[i]);
                    let m = choose|m: int| 0 <= m < rest.len() && rest[m] == sub[i];
                    assert(list[m] == rest[m]);
                    assert(key(list[m]) != key(list[list.len() - 1]));
                }
            }
        } else {
            assert(out == sub);
        }
    }
}

/// What a list holds after a push.
pub proof fn lemma_push_contains<A>(list: Seq<A>, last: A, item: A)
    ensures
        list.push(last).contains(item) <==> (list.contains(item) || item == last),
{
    let after = list.push(last);
    if list.contains(item) {
        let k = choose|k: int| 0 <= k < list.len() && list[k] == item;
        assert(after[k] == item);
    }
    if item == last {
        assert(after[list.len() as int] == item);
    }
}

/// Two tests that agree on every item of a list filter it alike.
pub proof fn lemma_filter_agree<A>(list: Seq<A>, first: spec_fn(A) -> bool, second: spec_fn(A) -> bool)
    requires
        forall|i: int| 0 <= i < list.len() ==> first(#[trigger] list[i]) == second(list[i]),
    ensures
        list.filter(first) == list.filter(second),
    decreases list.len(),
{
    reveal(Seq::filter);
    if list.len() > 0 {
        let rest = list.drop_last();
        assert forall|i: int| 0 <= i < rest.len() implies first(#[trigger] rest[i]) == second(
            rest[i],
        ) by {
            assert(rest[i] == list[i]);
        }
        lemma_filter_agree(rest, first, second);
        assert(first(list[list.len() - 1]) == second(list[list.len() - 1]));
    }
}

/// A test that no item of a list passes leaves nothing of it, and the other
/// way round.
pub proof fn lemma_filter_none<A>(list: Seq<A>, test: spec_fn(A) -> bool)
    ensures
        list.filter(test).len() == 0 <==> forall|i: int|
            0 <= i < list.len() ==> !test(#[trigger] list[i]),
    decreases list.len(),
{
    reveal(Seq::filter);
    if list.len() > 0 {
        let rest = list.drop_last();
        lemma_filter_none(rest, test);
        if list.filter(test).len() == 0 {
            assert forall|i: int| 0 <= i < list.len() implies !test(#[trigger] list[i]) by {
                if i < rest.len() {
                    assert(rest[i] == list[i]);
                }
            }
        } else {
            if forall|i: int| 0 <= i < list.len() ==> !test(#[trigger] list[i]) {
                assert forall|i: int| 0 <= i < rest.len() implies !test(#[trigger] rest[i]) by {
                    assert(rest[i] == list[i]);
                }
                assert(!test(list[list.len() - 1]));
            }
        }
    }
}

/// A test that every item of a list passes leaves the list as it is.
pub proof fn lemma_filter_all<A>(list: Seq<A>, test: spec_fn(A) -> bool)
    requires
        forall|i: int| 0 <= i < list.len() ==> test(#[trigger] list[i]),
    ensures
        list.filter(test) == list,
    decreases list.len(),
{
    reveal(Seq::filter);
    if list.len() > 0 {
        let rest = list.drop_last();
        assert forall|i: int| 0 <= i < rest.len() implies test(#[trigger] rest[i]) by {
            assert(rest[i] == list[i]);
        }
        lemma_filter_all(rest, test);
        assert(test(list[list.len() - 1]));
        assert(rest.push(list.last()) =~= list);
    }
}

/// Where two tests differ on one item of a list without repeats, and only
/// there, the stricter one leaves one item less.
pub proof fn lemma_filter_one_less<A>(
    list: Seq<A>,
    wide: spec_fn(A) -> bool,
    strict: spec_fn(A) -> bool,
    item: A,
)
    requires
        list.no_duplicates(),
        list.contains(item),
        wide(item) && !strict(item),
        forall|i: int|
            0 <= i < list.len() && list[i] != item ==> wide(#[trigger] list[i]) == strict(list[i]),
    ensures
        list.filter(strict).len() + 1 == list.filter(wide).len(),
    decreases list.len(),
{
    reveal(Seq::filter);
    let rest = list.drop_last();
    let last = list.last();
    assert forall|i: int, j: int| 0 <= i < rest.len() && 0 <= j < rest.len() && i != j implies rest[i]
        != rest[j] by {
        assert(rest[i] == list[i] && rest[j] == list[j]);
    }
    if last == item {
        assert forall|i: int| 0 <= i < rest.len() implies wide(#[trigger] rest[i]) == strict(
            rest[i],
        ) by {
            assert(rest[i] == list[i]);
            assert(list[i] != list[list.len() - 1]);
        }
        lemma_filter_agree(rest, wide, strict);
    } else {
        let at = choose|at: int| 0 <= at < list.len() && list[at] == item;
        assert(rest[at] == item);
        assert forall|i: int| 0 <= i < rest.len() && rest[i] != item implies wide(
            #[trigger] rest[i],
        ) == strict(rest[i]) by {
            assert(rest[i] == list[i]);
        }
        lemma_filter_one_less(rest, wide, strict, item);
        assert(wide(list[list.len() - 1]) == strict(list[list.len() - 1]));
    }
}

/// What two lists hold, one after the other.
pub proof fn lemma_concat_contains<A>(first: Seq<A>, second: Seq<A>, item: A)
    ensures
        (first + second).contains(item) <==> (first.contains(item) || second.contains(item)),
{
    let both = first + second;
    if both.contains(item) {
        let k = choose|k: int| 0 <= k < both.len() && both[k] == item;
        if k < first.len() {
            assert(first[k] == item);
        } else {
            assert(second[k - first.len()] == item);
        }
    }
    if first.contains(item) {
        let k = choose|k: int| 0 <= k < first.len() && first[k] == item;
        assert(both[k] == item);
    }
    if second.contains(item) {
        let k = choose|k: int| 0 <= k < second.len() && second[k] == item;
        assert(both[first.len() + k] == item);
    }
}

/// What a filtered list holds.
pub proof fn lemma_filter_holds<A>(list: Seq<A>, test: spec_fn(A) -> bool, item: A)
    ensures
        list.filter(test).contains(item) <==> (list.contains(item) && test(item)),
{
    let kept = list.filter(test);
    if kept.contains(item) {
        list.lemma_filter_contains_rev(test, item);
        let m = choose|m: int| 0 <= m < kept.len() && kept[m] == item;
        list.lemma_filter_pred(test, m);
    }
    if list.contains(item) && test(item) {
        let m = choose|m: int| 0 <= m < list.len() && list[m] == item;
        list.lemma_filter_contains(test, m);
    }
}

/// A filter keeps a list without repeats free of repeats.
pub proof fn lemma_filter_no_repeats<A>(list: Seq<A>, test: spec_fn(A) -> bool)
    requires
        list.no_duplicates(),
    ensures
        list.filter(test).no_duplicates(),
{
    let same = |item: A| item;
    let kept = list.filter(test);
    assert forall|i: int, j: int| 0 <= i < j < list.len() implies same(#[trigger] list[i]) != same(
        #[trigger] list[j],
    ) by {}
    lemma_filter_keeps_distinct(list, test, same);
    assert forall|i: int, j: int| 0 <= i < kept.len() && 0 <= j < kept.len() && i != j implies kept[i]
        != kept[j] by {
        if i < j {
            assert(same(kept[i]) != same(kept[j]));
        } else {
            assert(same(kept[j]) != same(kept[i]));
        }
    }
}

/// What a list without repeats holds once the item at `at` is taken out.
pub proof fn lemma_remove_holds<A>(list: Seq<A>, at: int, item: A)
    requires
        list.no_duplicates(),
        0 <= at < list.len(),
    ensures
        list.remove(at).no_duplicates(),
        list.remove(at).contains(item) <==> (list.contains(item) && item != list[at]),
        list.index_of(list[at]) == at,
{
    let rest = list.remove(at);
    assert forall|i: int| 0 <= i < rest.len() implies #[trigger] rest[i] == if i < at {
        list[i]
    } else {
        list[i + 1]
    } by {}
    assert forall|i: int, j: int| 0 <= i < rest.len() && 0 <= j < rest.len() && i != j implies rest[i]
        != rest[j] by {
        let from_i = if i < at {
            i
        } else {
            i + 1
        };
        let from_j = if j < at {
            j
        } else {
            j + 1
        };
        assert(rest[i] == list[from_i] && rest[j] == list[from_j]);
    }
    if rest.contains(item) {
        let i = choose|i: int| 0 <= i < rest.len() && rest[i] == item;
        let from = if i < at {
            i
        } else {
            i + 1
        };
        assert(list[from] == item);
    }
    if list.contains(item) && item != list[at] {
        let k = choose|k: int| 0 <= k < list.len() && list[k] == item;
        if k < at {
            assert(rest[k] == item);
        } else {
            assert(rest[k - 1] == item);
        }
    }
    assert(list.contains(list[at]));
}

/// What a list without repeats holds once its first item is taken out.
pub proof fn lemma_drop_first_holds<A>(list: Seq<A>, item: A)
    requires
        list.no_duplicates(),
        list.len() > 0,
    ensures
        list.drop_first().no_duplicates(),
        list.drop_first().contains(item) <==> (list.contains(item) && item != list.first()),
{
    lemma_remove_holds(list, 0, item);
    assert(list.remove(0) =~= list.drop_first());
}

/// What a list holds once each item is mapped and those without an image
/// are left out.
pub proof fn lemma_filter_map_holds<A, B>(list: Seq<A>, f: spec_fn(A) -> Option<B>, image: B)
    ensures
        list.filter_map(f).contains(image) <==> exists|i: int|
            0 <= i < list.len() && f(#[trigger] list[i]) == Some(image),
    decreases list.len(),
{
    if list.len() > 0 {
        let rest = list.drop_last();
        let last = list.last();
        lemma_filter_map_holds(rest, f, image);
        let head = rest.filter_map(f);
        match f(last) {
            Some(s) => {
                lemma_concat_contains(head, seq![s], image);
                if seq![s].contains(image) {
                    let k = choose|k: int| 0 <= k < 1 && seq![s][k] == image;
                    assert(s == image);
                }
                if s == image {
                    assert(seq![s][0] == image);
                }
            },
            None => {},
        }
        if list.filter_map(f).contains(image) {
            if head.contains(image) {
                let i = choose|i: int| 0 <= i < rest.len() && f(#[trigger] rest[i]) == Some(image);
                assert(list[i] == rest[i]);
            } else {
                assert(f(list[list.len() - 1]) == Some(image));
            }
        }
        if exists|i: int| 0 <= i < list.len() && f(#[trigger] list[i]) == Some(image) {
            let i = choose|i: int| 0 <= i < list.len() && f(#[trigger] list[i]) == Some(image);
            if i < rest.len() {
                assert(rest[i] == list[i]);
            }
        }
    }
}

/// Where no two items of a list have the same image, the list of images has
/// no repeats.
pub proof fn lemma_filter_map_no_repeats<A, B>(list: Seq<A>, f: spec_fn(A) -> Option<B>)
    requires
        forall|i: int, j: int|
            0 <= i < j < list.len() && f(list[i]) is Some ==> f(#[trigger] list[i]) != f(
                #[trigger] list[j],
            ),
    ensures
        list.filter_map(f).no_duplicates(),
    decreases list.len(),
{
    if list.len() > 0 {
        let rest = list.drop_last();
        let last = list.last();
        assert forall|i: int, j: int| 0 <= i < j < rest.len() && f(rest[i]) is Some implies f(
            #[trigger] rest[i],
        ) != f(#[trigger] rest[j]) by {
            assert(rest[i] == list[i] && rest[j] == list[j]);
        }
        lemma_filter_map_no_repeats(rest, f);
        let head = rest.filter_map(f);
        match f(last) {
            Some(s) => {
                lemma_filter_map_holds(rest, f, s);
                if head.contains(s) {
                    let i = choose|i: int| 0 <= i < rest.len() && f(#[trigger] rest[i]) == Some(s);
                    assert(rest[i] == list[i]);
                    assert(f(list[i]) != f(list[list.len() - 1]));
                }
                assert forall|i: int, j: int| 0 <= i < head.len() && 0 <= j < 1 implies head[i]
                    != seq![s][j] by {
                    assert(head.contains(head[i]));
                }
                vstd::seq_lib::lemma_no_dup_in_concat(head, seq![s]);
            },
            None => {},
        }
    }
}

/// Two maps that agree on every item of a list give the same list of
/// images.
pub proof fn lemma_filter_map_agree<A, B>(
    list: Seq<A>,
    first: spec_fn(A) -> Option<B>,
    second: spec_fn(A) -> Option<B>,
)
    requires
        forall|i: int| 0 <= i < list.len() ==> first(#[trigger] list[i]) == second(list[i]),
    ensures
        list.filter_map(first) == list.filter_map(second),
    decreases list.len(),
{
    if list.len() > 0 {
        let rest = list.drop_last();
        assert forall|i: int| 0 <= i < rest.len() implies first(#[trigger] rest[i]) == second(
            rest[i],
        ) by {
            assert(rest[i] == list[i]);
        }
        lemma_filter_map_agree(rest, first, second);
        assert(first(list[list.len() - 1]) == second(list[list.len() - 1]));
    }
}

/// Leaving out items that have no image does not change the list of images.
pub proof fn lemma_filter_map_after_filter<A, B>(
    list: Seq<A>,
    keep: spec_fn(A) -> bool,
    f: spec_fn(A) -> Option<B>,
)
    requires
        forall|i: int| 0 <= i < list.len() && !keep(#[trigger] list[i]) ==> f(list[i]) is None,
    ensures
        list.filter(keep).filter_map(f) == list.filter_map(f),
    decreases list.len(),
{
    reveal(Seq::filter);
    if list.len() > 0 {
        let rest = list.drop_last();
        let last = list.last();
        assert forall|i: int| 0 <= i < rest.len() && !keep(#[trigger] rest[i]) implies f(
            rest[i],
        ) is None by {
            assert(rest[i] == list[i]);
        }
        lemma_filter_map_after_filter(rest, keep, f);
        if keep(last) {
            let kept = rest.filter(keep);
            assert(kept.push(last).drop_last() =~= kept);
        } else {
            assert(!keep(list[list.len() - 1]));
        }
    }
}

} // verus!
