//! Lists in which every item stands at most once.
use crate::text::same_text;
use vstd::hash_set::StringHashSet;
use vstd::prelude::*;

verus! {

/// `items` with `item`, which is added at the end unless it is there.
pub open spec fn joined<T>(items: Seq<T>, item: T) -> Seq<T> {
    if items.contains(item) {
        items
    } else {
        items.push(item)
    }
}

/// `items` with all of `more`.
pub open spec fn joined_all<T>(items: Seq<T>, more: Seq<T>) -> Seq<T>
    decreases more.len(),
{
    if more.len() == 0 {
        items
    } else {
        joined(joined_all(items, more.drop_last()), more.last())
    }
}

/// `items` without `item`.
pub open spec fn parted<T>(items: Seq<T>, item: T) -> Seq<T>
    decreases items.len(),
{
    if items.len() == 0 {
        items
    } else if items.last() == item {
        parted(items.drop_last(), item)
    } else {
        parted(items.drop_last(), item).push(items.last())
    }
}

/// `items` without any of `gone`.
pub open spec fn parted_all<T>(items: Seq<T>, gone: Seq<T>) -> Seq<T>
    decreases gone.len(),
{
    if gone.len() == 0 {
        items
    } else {
        parted(parted_all(items, gone.drop_last()), gone.last())
    }
}

/// The texts of a list of strings.
pub open spec fn texts(strings: Seq<String>) -> Seq<Seq<char>> {
    strings.map_values(|text: String| text@)
}

/// What an extended list holds.
pub proof fn lemma_push_contains<T>(items: Seq<T>, last: T, item: T)
    ensures
        items.push(last).contains(item) <==> items.contains(item) || item == last,
{
    let all = items.push(last);
    if items.contains(item) {
        let i = choose|i: int| 0 <= i < items.len() && items[i] == item;
        assert(all[i] == item);
    }
    if all.contains(item) {
        let i = choose|i: int| 0 <= i < all.len() && all[i] == item;
        if i < items.len() {
            assert(items[i] == item);
        }
    }
    assert(all[items.len() as int] == last);
}

/// What a list holds once an item is taken out.
pub proof fn lemma_parted<T>(items: Seq<T>, gone: T)
    ensures
        forall|item: T| #[trigger]
            parted(items, gone).contains(item) <==> items.contains(item) && item != gone,
    decreases items.len(),
{
    if items.len() > 0 {
        let less = items.drop_last();
        let rest = parted(less, gone);
        lemma_parted(less, gone);
        assert forall|item: T| #[trigger]
            parted(items, gone).contains(item) <==> items.contains(item) && item != gone by {
            assert(rest.contains(item) <==> less.contains(item) && item != gone);
            lemma_push_contains(rest, items.last(), item);
            lemma_push_contains(less, items.last(), item);
            assert(less.push(items.last()) =~= items);
        }
    }
}

/// Adds `id` to `ids` unless it is there.
pub fn join_id(ids: &mut Vec<u64>, id: u64)
    ensures
        final(ids)@ == joined(old(ids)@, id),
{
    let mut at: usize = 0;
    while at < ids.len()
        invariant
            at <= ids@.len(),
            *ids == *old(ids),
            forall|i: int| 0 <= i < at ==> ids@[i] != id,
        decreases ids@.len() - at,
    {
        if ids[at] == id {
            return ;
        }
        at = at + 1;
    }
    ids.push(id);
}

/// Removes `id` from `ids`.
pub fn part_id(ids: &mut Vec<u64>, id: u64)
    ensures
        final(ids)@ == parted(old(ids)@, id),
{
    let mut kept: Vec<u64> = Vec::new();
    let mut at: usize = 0;
    let ghost all = ids@;
    assert(kept@ =~= parted(all.take(0), id));
    while at < ids.len()
        invariant
            at <= ids@.len(),
            *ids == *old(ids),
            all == ids@,
            kept@ == parted(all.take(at as int), id),
        decreases ids@.len() - at,
    {
        assert(all.take(at + 1).drop_last() =~= all.take(at as int));
        if ids[at] != id {
            kept.push(ids[at]);
        }
        at = at + 1;
    }
    assert(all.take(at as int) =~= all);
    *ids = kept;
}

/// Names in the order in which they joined, each once.
pub struct NameList {
    names: Vec<String>,
    known: StringHashSet,
}

impl View for NameList {
    type V = Seq<Seq<char>>;

    closed spec fn view(&self) -> Seq<Seq<char>> {
        texts(self.names@)
    }
}

impl NameList {
    /// The known names are those on the list.
    pub closed spec fn wf(&self) -> bool {
        forall|name: Seq<char>| #[trigger] self.known@.contains(name) <==> self@.contains(name)
    }

    /// A list of nothing.
    pub fn new() -> (list: Self)
        ensures
            list.wf(),
            list@ == Seq::<Seq<char>>::empty(),
    {
        let list = NameList { names: Vec::new(), known: StringHashSet::new() };
        assert(list@ =~= Seq::<Seq<char>>::empty());
        list
    }

    /// Adds a name unless it is there.
    pub fn join(&mut self, name: &str)
        requires
            old(self).wf(),
        ensures
            final(self).wf(),
            final(self)@ == joined(old(self)@, name@),
    {
        if self.known.contains(name) {
            return ;
        }
        let ghost before = self@;
        let _ = self.known.insert(name.to_owned());
        self.names.push(name.to_owned());
        proof {
            assert(self@ =~= before.push(name@));
            assert forall|other: Seq<char>| #[trigger] self.known@.contains(
                other,
            ) <==> self@.contains(other) by {
                lemma_push_contains(before, name@, other);
            }
        }
    }

    /// Removes a name.
    pub fn part(&mut self, name: &str)
        requires
            old(self).wf(),
        ensures
            final(self).wf(),
            final(self)@ == parted(old(self)@, name@),
    {
        let ghost all = self@;
        let mut kept: Vec<String> = Vec::new();
        let mut at: usize = 0;
        assert(texts(kept@) =~= parted(all.take(0), name@));
        while at < self.names.len()
            invariant
                at <= self.names@.len(),
                *self == *old(self),
                all == self@,
                texts(kept@) == parted(all.take(at as int), name@),
            decreases self.names@.len() - at,
        {
            let ghost before = kept@;
            assert(all.take(at + 1).drop_last() =~= all.take(at as int));
            if !same_text(&self.names[at], name) {
                kept.push(self.names[at].clone());
                assert(texts(kept@) =~= texts(before).push(self.names@[at as int]@));
            }
            at = at + 1;
        }
        assert(all.take(at as int) =~= all);
        self.names = kept;
        let _ = self.known.remove(name);
        proof {
            lemma_parted(all, name@);
        }
    }

    /// Takes every name out.
    pub fn drain(&mut self) -> (names: Vec<String>)
        requires
            old(self).wf(),
        ensures
            final(self).wf(),
            final(self)@ == Seq::<Seq<char>>::empty(),
            texts(names@) == old(self)@,
    {
        let mut names: Vec<String> = Vec::new();
        std::mem::swap(&mut names, &mut self.names);
        self.known = StringHashSet::new();
        assert(self@ =~= Seq::<Seq<char>>::empty());
        names
    }
}

/// Law: items that join keep their order and stand behind those that are there; an item that is
/// there does not join again, so that none stands twice.
pub proof fn law_items_join_once<T>(items: Seq<T>, item: T)
    requires
        items.no_duplicates(),
    ensures
        joined(items, item).no_duplicates(),
        joined(items, item).contains(item),
        joined(items, item).take(items.len() as int) == items,
        items.contains(item) ==> joined(items, item) == items,
        !items.contains(item) ==> joined(items, item) == items.push(item),
{
    let all = joined(items, item);
    lemma_push_contains(items, item, item);
    assert(all.take(items.len() as int) =~= items);
    if !items.contains(item) {
        assert forall|i: int, j: int|
            0 <= i < all.len() && 0 <= j < all.len() && i != j implies all[i] != all[j] by {
            if i < items.len() {
                assert(items.contains(items[i]));
            }
            if j < items.len() {
                assert(items.contains(items[j]));
            }
        }
    }
}

/// Law: an item that is taken out is gone, and the others keep their order.
pub proof fn law_items_part_alone<T>(head: Seq<T>, item: T, tail: Seq<T>)
    requires
        !head.contains(item),
        !tail.contains(item),
    ensures
        parted(head.push(item) + tail, item) == head + tail,
        parted(head, item) == head,
    decreases tail.len(),
{
    let all = head.push(item) + tail;
    lemma_parted_absent(head, item);
    if tail.len() == 0 {
        assert(all =~= head.push(item));
        assert(all.drop_last() =~= head);
        assert(head + tail =~= head);
    } else {
        let rest = tail.drop_last();
        assert(all.drop_last() =~= head.push(item) + rest);
        assert(all.last() == tail[tail.len() - 1]);
        assert(tail.contains(tail[tail.len() - 1]));
        assert(!rest.contains(item)) by {
            if rest.contains(item) {
                let i = choose|i: int| 0 <= i < rest.len() && rest[i] == item;
                assert(tail[i] == item);
            }
        }
        law_items_part_alone(head, item, rest);
        assert((head + rest).push(tail.last()) =~= head + tail);
    }
}

proof fn lemma_parted_absent<T>(items: Seq<T>, item: T)
    requires
        !items.contains(item),
    ensures
        parted(items, item) == items,
    decreases items.len(),
{
    if items.len() > 0 {
        let less = items.drop_last();
        assert(items.contains(items[items.len() - 1]));
        assert(!less.contains(item)) by {
            if less.contains(item) {
                let i = choose|i: int| 0 <= i < less.len() && less[i] == item;
                assert(items[i] == item);
            }
        }
        lemma_parted_absent(less, item);
        assert(less.push(items.last()) =~= items);
    }
}

} // verus!
