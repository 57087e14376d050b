//! Lists of texts in dictionary order.
use vstd::prelude::*;

use crate::text::{before, comes_before, law_dictionary_order, same, texts};

verus! {

/// The first place, from `i` on, whose text is not before the given one.
pub open spec fn text_place(list: Seq<Seq<char>>, text: Seq<char>, i: int) -> int
    decreases list.len() - i,
{
    if 0 <= i < list.len() && before(list[i], text) {
        text_place(list, text, i + 1)
    } else {
        i
    }
}

/// A sorted list with one more text; one that is there already is not added.
pub open spec fn with_text(list: Seq<Seq<char>>, text: Seq<char>) -> Seq<Seq<char>> {
    let k = text_place(list, text, 0);
    if k < list.len() && list[k] == text {
        list
    } else {
        list.insert(k, text)
    }
}

/// The texts of a list in dictionary order, each once.
pub open spec fn sorted_set(list: Seq<Seq<char>>) -> Seq<Seq<char>>
    decreases list.len(),
{
    if list.len() == 0 {
        Seq::empty()
    } else {
        with_text(sorted_set(list.drop_last()), list.last())
    }
}

/// Whether each text comes before all that follow.
pub open spec fn is_strictly_sorted(list: Seq<Seq<char>>) -> bool {
    forall|i: int, j: int| #![trigger list[i], list[j]] 0 <= i < j < list.len() ==> before(
        list[i],
        list[j],
    )
}

proof fn lemma_text_place(list: Seq<Seq<char>>, text: Seq<char>, i: int)
    requires
        0 <= i <= list.len(),
    ensures
        i <= text_place(list, text, i) <= list.len(),
        forall|j: int| i <= j < text_place(list, text, i) ==> before(#[trigger] list[j], text),
        text_place(list, text, i) < list.len() ==> !before(list[text_place(list, text, i)], text),
    decreases list.len() - i,
{
    if i < list.len() && before(list[i], text) {
        lemma_text_place(list, text, i + 1);
    }
}

proof fn lemma_text_place_is(list: Seq<Seq<char>>, text: Seq<char>, i: int, k: int)
    requires
        0 <= i <= k <= list.len(),
        forall|j: int| i <= j < k ==> before(#[trigger] list[j], text),
        k < list.len() ==> !before(list[k], text),
    ensures
        text_place(list, text, i) == k,
    decreases k - i,
{
    if i < k {
        assert(before(list[i], text));
        lemma_text_place_is(list, text, i + 1, k);
    }
}

proof fn lemma_with_text(list: Seq<Seq<char>>, text: Seq<char>)
    requires
        is_strictly_sorted(list),
    ensures
        is_strictly_sorted(with_text(list, text)),
        forall|t: Seq<char>| #[trigger]
            with_text(list, text).contains(t) <==> list.contains(t) || t == text,
{
    let k = text_place(list, text, 0);
    lemma_text_place(list, text, 0);
    let more = with_text(list, text);
    if k < list.len() && list[k] == text {
    } else {
        assert forall|i: int, j: int|
            #![trigger more[i], more[j]]
            0 <= i < j < more.len() implies before(more[i], more[j]) by {
            if j == k {
                assert(more[i] == list[i]);
            } else if i == k {
                assert(more[j] == list[j - 1]);
                law_dictionary_order(list[k], text, text);
                law_dictionary_order(text, list[k], list[j - 1]);
            } else {
                let a = if i < k { i } else { i - 1 };
                let b = if j < k { j } else { j - 1 };
                assert(more[i] == list[a]);
                assert(more[j] == list[b]);
            }
        }
        assert forall|t: Seq<char>| #[trigger] more.contains(t) <==> list.contains(t) || t
            == text by {
            if more.contains(t) {
                let i = more.index_of(t);
                if i < k {
                    assert(list[i] == t);
                } else if i > k {
                    assert(list[i - 1] == t);
                }
            }
            if list.contains(t) {
                let i = list.index_of(t);
                if i < k {
                    assert(more[i] == t);
                } else {
                    assert(more[i + 1] == t);
                }
            }
            if t == text {
                assert(more[k] == t);
            }
        }
    }
}

/// Sorting keeps the texts of a list and no others, in dictionary order, each
/// once.
pub proof fn law_sorted_set(list: Seq<Seq<char>>)
    ensures
        is_strictly_sorted(sorted_set(list)),
        forall|t: Seq<char>| #[trigger] sorted_set(list).contains(t) <==> list.contains(t),
    decreases list.len(),
{
    if list.len() > 0 {
        let rest = list.drop_last();
        law_sorted_set(rest);
        lemma_with_text(sorted_set(rest), list.last());
        assert forall|t: Seq<char>| #[trigger] sorted_set(list).contains(t) <==> list.contains(t) by {
            assert(sorted_set(list).contains(t) <==> sorted_set(rest).contains(t) || t
                == list.last());
            assert(sorted_set(rest).contains(t) <==> rest.contains(t));
            if rest.contains(t) {
                let i = rest.index_of(t);
                assert(list[i] == t);
            }
            if list.contains(t) {
                let i = list.index_of(t);
                if i < rest.len() {
                    assert(rest[i] == t);
                }
            }
            if t == list.last() {
                assert(list[list.len() - 1] == t);
            }
        }
    } else {
        assert forall|t: Seq<char>| #[trigger] sorted_set(list).contains(t) <==> list.contains(t) by {
        }
    }
}

fn find_text_place(list: &[String], text: &str) -> (place: usize)
    requires
        is_strictly_sorted(texts(list@)),
    ensures
        place == text_place(texts(list@), text@, 0),
        place <= list@.len(),
{
    let ghost all = texts(list@);
    let mut low: usize = 0;
    let mut high: usize = list.len();
    while low < high
        invariant
            low <= high <= list@.len(),
            all == texts(list@),
            is_strictly_sorted(all),
            forall|j: int| 0 <= j < low ==> before(#[trigger] all[j], text@),
            forall|j: int| high <= j < all.len() ==> !before(#[trigger] all[j], text@),
        decreases high - low,
    {
        let mid: usize = low + (high - low) / 2;
        if comes_before(&list[mid], text) {
            proof {
                assert forall|j: int| 0 <= j < mid + 1 implies before(#[trigger] all[j], text@) by {
                    if j < mid {
                        assert(before(all[j], all[mid as int]));
                        law_dictionary_order(all[j], all[mid as int], text@);
                    }
                }
            }
            low = mid + 1;
        } else {
            proof {
                assert forall|j: int| mid <= j < all.len() implies !before(
                    #[trigger] all[j],
                    text@,
                ) by {
                    if j > mid {
                        assert(before(all[mid as int], all[j]));
                        law_dictionary_order(all[mid as int], all[j], text@);
                    }
                }
            }
            high = mid;
        }
    }
    proof {
        lemma_text_place_is(all, text@, 0, low as int);
    }
    low
}

/// Computes [`sorted_set`].
pub fn sort_texts(list: &[String]) -> (out: Vec<String>)
    ensures
        texts(out@) == sorted_set(texts(list@)),
{
    let ghost all = texts(list@);
    let mut out: Vec<String> = Vec::new();
    let mut i: usize = 0;
    proof {
        assert(texts(out@) =~= Seq::<Seq<char>>::empty());
    }
    while i < list.len()
        invariant
            i <= list@.len(),
            all == texts(list@),
            texts(out@) == sorted_set(all.take(i as int)),
        decreases list@.len() - i,
    {
        proof {
            assert(all.take(i + 1).drop_last() =~= all.take(i as int));
            law_sorted_set(all.take(i as int));
        }
        let place = find_text_place(&out, &list[i]);
        let known = place < out.len() && same(&out[place], &list[i]);
        if !known {
            let ghost had = out@;
            out.insert(place, list[i].clone());
            proof {
                assert(texts(out@) =~= texts(had).insert(place as int, list@[i as int]@));
            }
        }
        i += 1;
    }
    proof {
        assert(all.take(all.len() as int) =~= all);
    }
    out
}

// ---------------------------------------------------------------------------
// Pairs by their first part
// ---------------------------------------------------------------------------
/// The first place, from `i` on, whose name comes after the given one.
pub open spec fn pair_place(list: Seq<(Seq<char>, Seq<char>)>, name: Seq<char>, i: int) -> int
    decreases list.len() - i,
{
    if 0 <= i < list.len() && !before(name, list[i].0) {
        pair_place(list, name, i + 1)
    } else {
        i
    }
}

/// Pairs in the order of their first parts; those with the same one stay in
/// their order.
pub open spec fn sorted_pairs(list: Seq<(Seq<char>, Seq<char>)>) -> Seq<(Seq<char>, Seq<char>)>
    decreases list.len(),
{
    if list.len() == 0 {
        Seq::empty()
    } else {
        let earlier = sorted_pairs(list.drop_last());
        earlier.insert(pair_place(earlier, list.last().0, 0), list.last())
    }
}

/// What the pairs of a list hold.
pub open spec fn pair_texts(list: Seq<(String, String)>) -> Seq<(Seq<char>, Seq<char>)> {
    Seq::new(list.len(), |i: int| (list[i].0@, list[i].1@))
}

/// Computes [`sorted_pairs`].
pub fn sort_pairs(list: &[(String, String)]) -> (out: Vec<(String, String)>)
    ensures
        pair_texts(out@) == sorted_pairs(pair_texts(list@)),
{
    let ghost all = pair_texts(list@);
    let mut out: Vec<(String, String)> = Vec::new();
    let mut i: usize = 0;
    proof {
        assert(pair_texts(out@) =~= Seq::<(Seq<char>, Seq<char>)>::empty());
    }
    while i < list.len()
        invariant
            i <= list@.len(),
            all == pair_texts(list@),
            pair_texts(out@) == sorted_pairs(all.take(i as int)),
        decreases list@.len() - i,
    {
        proof {
            assert(all.take(i + 1).drop_last() =~= all.take(i as int));
        }
        let ghost had = out@;
        let ghost earlier = pair_texts(out@);
        let name = &list[i].0;
        let mut k: usize = 0;
        while k < out.len() && !comes_before(name, &out[k].0)
            invariant
                k <= out@.len(),
                earlier == pair_texts(out@),
                pair_place(earlier, name@, 0) == pair_place(earlier, name@, k as int),
            decreases out@.len() - k,
        {
            k += 1;
        }
        out.insert(k, (name.clone(), list[i].1.clone()));
        proof {
            assert(pair_texts(out@) =~= pair_texts(had).insert(k as int, all[i as int]));
        }
        i += 1;
    }
    proof {
        assert(all.take(all.len() as int) =~= all);
    }
    out
}

} // verus!
