//! Lists of texts without repetition, in the order in which each text first
//! came. They say what is asked of the repository: each path and each
//! content once.

use vstd::prelude::*;
use vstd::hash_map::*;

verus! {

/// The texts that the strings hold.
pub open spec fn texts(items: Seq<String>) -> Seq<Seq<char>> {
    Seq::new(items.len(), |i: int| items[i]@)
}

/// The texts that a list names.
pub open spec fn text_set(items: Seq<String>) -> Set<Seq<char>> {
    Set::new(|t: Seq<char>| exists|k: int| 0 <= k < items.len() && #[trigger] items[k]@ == t)
}

/// No two of `items` are the same text.
pub open spec fn all_distinct(items: Seq<String>) -> bool {
    forall|a: int, b: int| 0 <= a < b < items.len() ==> items[a]@ != items[b]@
}

/// `text` put behind `list`, unless `list` holds it.
pub open spec fn with_new(list: Seq<Seq<char>>, text: Seq<char>) -> Seq<Seq<char>> {
    if list.contains(text) {
        list
    } else {
        list.push(text)
    }
}

/// The texts of `items`, each once, in the order in which they first occur.
pub open spec fn distinct_in_order(items: Seq<Seq<char>>) -> Seq<Seq<char>>
    decreases items.len(),
{
    if items.len() == 0 {
        Seq::<Seq<char>>::empty()
    } else {
        with_new(distinct_in_order(items.drop_last()), items.last())
    }
}

/// Naming one more text adds it to the set.
pub proof fn lemma_text_set_push(items: Seq<String>, item: String)
    ensures
        text_set(items.push(item)) == text_set(items).insert(item@),
{
    let after = items.push(item);
    assert forall|t: Seq<char>|
        text_set(after).contains(t) <==> (text_set(items).contains(t) || t == item@) by {
        if text_set(after).contains(t) {
            let j = choose|j: int| 0 <= j < after.len() && #[trigger] after[j]@ == t;
            if j < items.len() {
                assert(items[j]@ == t);
            }
        }
        if text_set(items).contains(t) {
            let j = choose|j: int| 0 <= j < items.len() && #[trigger] items[j]@ == t;
            assert(after[j]@ == t);
        }
        if t == item@ {
            assert(after[items.len() as int]@ == t);
        }
    }
    assert(text_set(after) =~= text_set(items).insert(item@));
}

/// A list names a text exactly where one of its strings holds it.
pub proof fn lemma_text_set_is_contains(items: Seq<String>, text: Seq<char>)
    ensures
        text_set(items).contains(text) <==> texts(items).contains(text),
{
    if text_set(items).contains(text) {
        let j = choose|j: int| 0 <= j < items.len() && #[trigger] items[j]@ == text;
        assert(texts(items)[j] == text);
    }
    if texts(items).contains(text) {
        let j = choose|j: int| 0 <= j < texts(items).len() && texts(items)[j] == text;
        assert(items[j]@ == text);
    }
}

/// The list of distinct texts holds a text exactly where the items do.
pub proof fn lemma_distinct_holds_the_same(items: Seq<Seq<char>>, text: Seq<char>)
    ensures
        distinct_in_order(items).contains(text) <==> items.contains(text),
    decreases items.len(),
{
    if items.len() > 0 {
        let rest = items.drop_last();
        let last = items.last();
        let before = distinct_in_order(rest);
        let all = distinct_in_order(items);
        lemma_distinct_holds_the_same(rest, text);
        lemma_distinct_holds_the_same(rest, last);
        if all.contains(text) {
            let j = choose|j: int| 0 <= j < all.len() && all[j] == text;
            if j < before.len() {
                assert(before[j] == text);
                assert(before.contains(text));
                assert(rest.contains(text));
                let k = choose|k: int| 0 <= k < rest.len() && rest[k] == text;
                assert(items[k] == text);
            } else {
                assert(items[items.len() - 1] == text);
            }
            assert(items.contains(text));
        }
        if items.contains(text) {
            let k = choose|k: int| 0 <= k < items.len() && items[k] == text;
            if k < rest.len() {
                assert(rest[k] == text);
                assert(rest.contains(text));
                assert(before.contains(text));
                let j = choose|j: int| 0 <= j < before.len() && before[j] == text;
                assert(all[j] == text);
            } else if before.contains(last) {
                assert(all == before);
            } else {
                assert(all[before.len() as int] == text);
            }
            assert(all.contains(text));
        }
    }
}

/// A list of distinct texts holds no text twice, holds a text exactly where
/// the items do, and is no longer than they are.
pub proof fn lemma_distinct_in_order(items: Seq<Seq<char>>)
    ensures
        distinct_in_order(items).no_duplicates(),
        forall|t: Seq<char>| #[trigger]
            distinct_in_order(items).contains(t) <==> items.contains(t),
        distinct_in_order(items).len() <= items.len(),
    decreases items.len(),
{
    assert forall|t: Seq<char>| #[trigger]
        distinct_in_order(items).contains(t) <==> items.contains(t) by {
        lemma_distinct_holds_the_same(items, t);
    }
    if items.len() > 0 {
        lemma_distinct_in_order(items.drop_last());
    }
}

/// A list of strings holds distinct texts exactly where no two of its
/// strings hold the same.
pub proof fn lemma_all_distinct(items: Seq<String>)
    ensures
        all_distinct(items) <==> texts(items).no_duplicates(),
{
    if all_distinct(items) {
        assert forall|a: int, b: int|
            0 <= a < texts(items).len() && 0 <= b < texts(items).len() && a != b implies texts(
            items,
        )[a] != texts(items)[b] by {
            if a < b {
                assert(items[a]@ != items[b]@);
            } else {
                assert(items[b]@ != items[a]@);
            }
        }
    }
    if texts(items).no_duplicates() {
        assert forall|a: int, b: int| 0 <= a < b < items.len() implies items[a]@ != items[b]@ by {
            assert(texts(items)[a] != texts(items)[b]);
        }
    }
}

/// Puts `text` behind `items` unless they hold it. `seen` holds the texts of
/// `items`, to tell which are there.
pub(crate) fn push_if_new(items: &mut Vec<String>, seen: &mut StringHashMap<bool>, text: &str)
    requires
        old(seen)@.dom() == text_set(old(items)@),
    ensures
        final(seen)@.dom() == text_set(final(items)@),
        texts(final(items)@) == with_new(texts(old(items)@), text@),
{
    proof {
        lemma_text_set_is_contains(items@, text@);
    }
    if !seen.contains_key(text) {
        let owned: String = text.to_owned();
        proof {
            lemma_text_set_push(items@, owned);
            assert(texts(items@.push(owned)) =~= texts(items@).push(text@));
        }
        seen.insert(text.to_owned(), true);
        items.push(owned);
    }
}

} // verus!
