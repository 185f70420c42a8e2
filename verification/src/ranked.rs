//! Sorted sequences without repetitions.
use vstd::prelude::*;

verus! {

/// Values that a strict total order ranks by a key.
pub trait Ranked: Sized {
    /// What decides the rank.
    type Key;

    /// The key of this value.
    spec fn key(self) -> Self::Key;

    /// Whether `a` ranks before `b`.
    spec fn precedes(a: Self::Key, b: Self::Key) -> bool;

    /// Keys never precede themselves.
    proof fn lemma_irreflexive(a: Self::Key)
        ensures
            !Self::precedes(a, a),
    ;

    /// Precedence chains.
    proof fn lemma_transitive(a: Self::Key, b: Self::Key, c: Self::Key)
        requires
            Self::precedes(a, b),
            Self::precedes(b, c),
        ensures
            Self::precedes(a, c),
    ;

    /// Of two different keys one precedes the other.
    proof fn lemma_total(a: Self::Key, b: Self::Key)
        ensures
            a == b || Self::precedes(a, b) || Self::precedes(b, a),
    ;

    /// Whether this value ranks before `other`.
    fn is_before(&self, other: &Self) -> (before: bool)
        ensures
            before == Self::precedes(self.key(), other.key()),
    ;
}

impl Ranked for u32 {
    type Key = u32;

    open spec fn key(self) -> u32 {
        self
    }

    open spec fn precedes(a: u32, b: u32) -> bool {
        a < b
    }

    proof fn lemma_irreflexive(a: u32) {
    }

    proof fn lemma_transitive(a: u32, b: u32, c: u32) {
    }

    proof fn lemma_total(a: u32, b: u32) {
    }

    fn is_before(&self, other: &u32) -> (before: bool) {
        *self < *other
    }
}

/// Whether some item has this key.
pub open spec fn has_key<T: Ranked>(items: Seq<T>, key: T::Key) -> bool {
    exists|i: int| 0 <= i < items.len() && (#[trigger] items[i]).key() == key
}

/// Whether every item ranks before all later ones.
pub open spec fn strictly_ranked<T: Ranked>(items: Seq<T>) -> bool {
    forall|i: int, j: int|
        #![trigger items[i], items[j]]
        0 <= i < j < items.len() ==> T::precedes(items[i].key(), items[j].key())
}

/// Whether `sorted` holds the keys of `items`, each once and in order.
pub open spec fn normal_form<T: Ranked>(items: Seq<T>, sorted: Seq<T>) -> bool {
    &&& strictly_ranked(sorted)
    &&& forall|key: T::Key| #[trigger] has_key(items, key) <==> has_key(sorted, key)
}

/// Places `item` where it belongs, unless its key is there already.
fn insert_ranked<T: Ranked>(sorted: &mut Vec<T>, item: T)
    requires
        strictly_ranked(old(sorted)@),
    ensures
        strictly_ranked(final(sorted)@),
        forall|key: T::Key| #[trigger]
            has_key(final(sorted)@, key) <==> has_key(old(sorted)@, key) || key == item.key(),
{
    let ghost before = sorted@;
    let mut at = sorted.len();
    while at > 0 && item.is_before(&sorted[at - 1])
        invariant
            at <= sorted@.len(),
            sorted@ == before,
            forall|i: int|
                at <= i < sorted@.len() ==> T::precedes(item.key(), (#[trigger] sorted@[i]).key()),
        decreases at,
    {
        at = at - 1;
    }
    if at > 0 && !sorted[at - 1].is_before(&item) {
        proof {
            T::lemma_total(before[at - 1].key(), item.key());
            assert(has_key(before, item.key()));
        }
        return;
    }
    proof {
        assert forall|i: int| 0 <= i < at implies T::precedes(
            (#[trigger] before[i]).key(),
            item.key(),
        ) by {
            if i < at - 1 {
                T::lemma_transitive(before[i].key(), before[at - 1].key(), item.key());
            }
        }
    }
    let ghost key_of_item = item.key();
    sorted.insert(at, item);
    proof {
        let after = sorted@;
        assert(after[at as int].key() == key_of_item);
        assert forall|key: T::Key| #[trigger] has_key(after, key) <==> has_key(before, key) || key
            == key_of_item by {
            if has_key(before, key) {
                let i = choose|i: int| 0 <= i < before.len() && (#[trigger] before[i]).key() == key;
                if i < at {
                    assert(after[i] == before[i]);
                } else {
                    assert(after[i + 1] == before[i]);
                }
            }
            if has_key(after, key) && key != key_of_item {
                let i = choose|i: int| 0 <= i < after.len() && (#[trigger] after[i]).key() == key;
                if i < at {
                    assert(after[i] == before[i]);
                } else {
                    assert(after[i] == before[i - 1]);
                }
            }
        }
        assert forall|i: int, j: int|
            #![trigger after[i], after[j]]
            0 <= i < j < after.len() implies T::precedes(after[i].key(), after[j].key()) by {
            let from = if i < at {
                i
            } else {
                i - 1
            };
            let to = if j < at {
                j
            } else {
                j - 1
            };
            if i != at {
                assert(after[i] == before[from]);
            }
            if j != at {
                assert(after[j] == before[to]);
            }
        }
    }
}

/// The items in rank order, one for each key.
pub fn sort_dedup<T: Ranked>(items: Vec<T>) -> (sorted: Vec<T>)
    ensures
        normal_form(items@, sorted@),
{
    let ghost all = items@;
    let mut rest = items;
    let mut sorted: Vec<T> = Vec::new();
    while rest.len() > 0
        invariant
            rest@.len() <= all.len(),
            rest@ == all.take(rest@.len() as int),
            strictly_ranked(sorted@),
            forall|key: T::Key| #[trigger]
                has_key(sorted@, key) <==> has_key(all.skip(rest@.len() as int), key),
        decreases rest@.len(),
    {
        let ghost count = rest@.len() as int;
        let ghost placed = sorted@;
        if let Some(item) = rest.pop() {
            let ghost key_of_item = item.key();
            insert_ranked(&mut sorted, item);
            proof {
                let now = all.skip(count - 1);
                let then = all.skip(count);
                assert(rest@ =~= all.take(count - 1));
                assert(now[0].key() == key_of_item);
                assert forall|key: T::Key| #[trigger] has_key(sorted@, key) <==> has_key(
                    now,
                    key,
                ) by {
                    if has_key(now, key) && key != key_of_item {
                        let i = choose|i: int|
                            0 <= i < now.len() && (#[trigger] now[i]).key() == key;
                        assert(then[i - 1] == now[i]);
                    }
                    if has_key(then, key) {
                        let i = choose|i: int|
                            0 <= i < then.len() && (#[trigger] then[i]).key() == key;
                        assert(now[i + 1] == then[i]);
                    }
                }
            }
        }
    }
    assert(all.skip(0) =~= all);
    sorted
}

/// Law: the sorted form of a collection depends on its keys alone: whatever the order and
/// the repetitions, two collections with the same keys sort to the same keys.
pub proof fn law_normal_form_is_canonical<T: Ranked>(first: Seq<T>, second: Seq<T>)
    requires
        strictly_ranked(first),
        strictly_ranked(second),
        forall|key: T::Key| #[trigger] has_key(first, key) <==> has_key(second, key),
    ensures
        first.len() == second.len(),
        forall|i: int|
            0 <= i < first.len() ==> (#[trigger] first[i]).key() == second[i].key(),
    decreases first.len(),
{
    if first.len() == 0 {
        if second.len() > 0 {
            assert(has_key(second, second[0].key()));
            assert(has_key(first, second[0].key()));
        }
    } else {
        assert(has_key(first, first.last().key()));
        if second.len() == 0 {
            assert(has_key(second, first.last().key()));
        }
        assert(has_key(second, second.last().key()));
        assert(has_key(first, second.last().key()));
        let i = choose|i: int|
            0 <= i < second.len() && (#[trigger] second[i]).key() == first.last().key();
        let j = choose|j: int|
            0 <= j < first.len() && (#[trigger] first[j]).key() == second.last().key();
        if i < second.len() - 1 && j < first.len() - 1 {
            T::lemma_transitive(first.last().key(), second.last().key(), first.last().key());
            T::lemma_irreflexive(first.last().key());
        }
        if i < second.len() - 1 && j == first.len() - 1 {
            T::lemma_irreflexive(first.last().key());
        }
        if i == second.len() - 1 && j < first.len() - 1 {
            T::lemma_irreflexive(first.last().key());
        }
        let a = first.drop_last();
        let b = second.drop_last();
        assert forall|key: T::Key| #[trigger] has_key(a, key) <==> has_key(b, key) by {
            lemma_drop_last_key(first, key);
            lemma_drop_last_key(second, key);
        }
        law_normal_form_is_canonical(a, b);
        assert forall|k: int| 0 <= k < first.len() implies (#[trigger] first[k]).key()
            == second[k].key() by {
            if k < a.len() {
                assert(a[k] == first[k]);
                assert(b[k] == second[k]);
            }
        }
    }
}

proof fn lemma_drop_last_key<T: Ranked>(items: Seq<T>, key: T::Key)
    requires
        strictly_ranked(items),
        items.len() > 0,
    ensures
        has_key(items.drop_last(), key) <==> has_key(items, key) && key != items.last().key(),
{
    let rest = items.drop_last();
    if has_key(items, key) && key != items.last().key() {
        let i = choose|i: int| 0 <= i < items.len() && (#[trigger] items[i]).key() == key;
        assert(rest[i] == items[i]);
    }
    if has_key(rest, key) {
        let i = choose|i: int| 0 <= i < rest.len() && (#[trigger] rest[i]).key() == key;
        assert(items[i] == rest[i]);
        T::lemma_irreflexive(key);
    }
}

} // verus!
