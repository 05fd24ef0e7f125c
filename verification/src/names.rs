//! Sets of names in alphabetical order.

use crate::text;
use crate::text::{owned, same_text, text_less};
use vstd::prelude::*;

verus! {

/// Whether every name comes before those that follow it, so that none occurs twice.
pub open spec fn ascending(list: Seq<Seq<char>>) -> bool {
    forall|i: int, j: int|
        0 <= i < j < list.len() ==> text::text_lt(#[trigger] list[i], #[trigger] list[j])
}

/// How many names at the front of the list come before the given one.
pub open spec fn rank(list: Seq<Seq<char>>, name: Seq<char>) -> nat
    decreases list.len(),
{
    if list.len() == 0 || !text::text_lt(list[0], name) {
        0
    } else {
        1 + rank(list.drop_first(), name)
    }
}

/// The list with the name at its place, unless it is there already.
pub open spec fn with_name(list: Seq<Seq<char>>, name: Seq<char>) -> Seq<Seq<char>> {
    if list.contains(name) {
        list
    } else {
        list.insert(rank(list, name) as int, name)
    }
}

/// The names in ascending order, each of them once.
pub open spec fn sorted_names(names: Seq<Seq<char>>) -> Seq<Seq<char>>
    decreases names.len(),
{
    if names.len() == 0 {
        seq![]
    } else {
        with_name(sorted_names(names.drop_last()), names.last())
    }
}

/// The rank parts a list into the names before the given one and the others.
pub proof fn lemma_rank(list: Seq<Seq<char>>, name: Seq<char>)
    ensures
        rank(list, name) <= list.len(),
        forall|i: int| 0 <= i < rank(list, name) ==> text::text_lt(#[trigger] list[i], name),
        rank(list, name) < list.len() ==> !text::text_lt(list[rank(list, name) as int], name),
    decreases list.len(),
{
    if list.len() > 0 && text::text_lt(list[0], name) {
        let rest = list.drop_first();
        lemma_rank(rest, name);
        assert forall|i: int| 0 <= i < rank(list, name) implies text::text_lt(
            #[trigger] list[i],
            name,
        ) by {
            if i > 0 {
                assert(rest[i - 1] == list[i]);
            }
        }
    }
}

/// An index that parts a list in this way is the rank.
proof fn lemma_rank_is(list: Seq<Seq<char>>, name: Seq<char>, k: int)
    requires
        0 <= k <= list.len(),
        forall|i: int| 0 <= i < k ==> text::text_lt(#[trigger] list[i], name),
        k < list.len() ==> !text::text_lt(list[k], name),
    ensures
        rank(list, name) == k,
    decreases list.len(),
{
    if k > 0 {
        assert(text::text_lt(list[0], name));
        let rest = list.drop_first();
        assert forall|i: int| 0 <= i < k - 1 implies text::text_lt(#[trigger] rest[i], name) by {
            assert(text::text_lt(list[i + 1], name));
        }
        lemma_rank_is(rest, name, k - 1);
    }
}

/// Putting a name in keeps the order and adds just that name.
pub proof fn lemma_with_name(list: Seq<Seq<char>>, name: Seq<char>)
    requires
        ascending(list),
    ensures
        ascending(with_name(list, name)),
        forall|x: Seq<char>|
            #[trigger] with_name(list, name).contains(x) <==> list.contains(x) || x == name,
{
    let out = with_name(list, name);
    if !list.contains(name) {
        let k = rank(list, name) as int;
        lemma_rank(list, name);
        list.insert_ensures(k, name);
        assert forall|i: int, j: int| 0 <= i < j < out.len() implies text::text_lt(
            #[trigger] out[i],
            #[trigger] out[j],
        ) by {
            if j == k {
                assert(text::text_lt(list[i], name));
            } else if i >= k {
                let first = list[k];
                if i == k {
                    text::lemma_text_lt_total(first, name);
                    assert(list.contains(first));
                    if j - 1 > k {
                        assert(text::text_lt(list[k], list[j - 1]));
                        text::lemma_text_lt_transitive(name, first, list[j - 1]);
                    }
                } else {
                    assert(text::text_lt(list[i - 1], list[j - 1]));
                }
            } else if j > k {
                assert(text::text_lt(list[i], list[j - 1]));
            } else {
                assert(text::text_lt(list[i], list[j]));
            }
        }
        assert forall|x: Seq<char>| #[trigger] out.contains(x) <==> list.contains(x) || x
            == name by {
            if out.contains(x) {
                let i = choose|i: int| 0 <= i < out.len() && out[i] == x;
                if i < k {
                    assert(list[i] == x);
                } else if i > k {
                    assert(list[i - 1] == x);
                }
            }
            if list.contains(x) {
                let i = choose|i: int| 0 <= i < list.len() && list[i] == x;
                if i < k {
                    assert(out[i] == x);
                } else {
                    assert(out[i + 1] == x);
                }
            }
            assert(out[k] == name);
        }
    }
}

/// The sorted names are in ascending order and are the given ones.
pub proof fn lemma_sorted_names(names: Seq<Seq<char>>)
    ensures
        ascending(sorted_names(names)),
        forall|x: Seq<char>| #[trigger] sorted_names(names).contains(x) <==> names.contains(x),
    decreases names.len(),
{
    if names.len() > 0 {
        let front = names.drop_last();
        let last = names.last();
        lemma_sorted_names(front);
        lemma_with_name(sorted_names(front), last);
        assert forall|x: Seq<char>| #[trigger] sorted_names(names).contains(x)
            <==> names.contains(x) by {
            if front.contains(x) {
                let i = choose|i: int| 0 <= i < front.len() && front[i] == x;
                assert(names[i] == x);
            }
            if names.contains(x) && x != last {
                let i = choose|i: int| 0 <= i < names.len() && names[i] == x;
                assert(front[i] == x);
            }
            assert(names[names.len() - 1] == last);
        }
    }
}

/// A set of names has one ascending list only.
pub proof fn lemma_ascending_unique(a: Seq<Seq<char>>, b: Seq<Seq<char>>)
    requires
        ascending(a),
        ascending(b),
        forall|x: Seq<char>| a.contains(x) <==> b.contains(x),
    ensures
        a == b,
    decreases a.len(),
{
    if a.len() == 0 {
        if b.len() > 0 {
            assert(b.contains(b[0]));
        }
        assert(a =~= b);
    } else {
        assert(a.contains(a[0]));
        assert(b.len() > 0);
        assert(b.contains(b[0]));
        let i = choose|i: int| 0 <= i < b.len() && b[i] == a[0];
        let j = choose|j: int| 0 <= j < a.len() && a[j] == b[0];
        if i > 0 && j > 0 {
            text::lemma_text_lt_asymmetric(b[0], b[i]);
            assert(text::text_lt(a[0], a[j]));
        }
        assert(a[0] == b[0]);
        let ra = a.drop_first();
        let rb = b.drop_first();
        assert forall|x: Seq<char>| ra.contains(x) <==> rb.contains(x) by {
            if ra.contains(x) {
                let k = choose|k: int| 0 <= k < ra.len() && ra[k] == x;
                assert(a[k + 1] == x);
                text::lemma_text_lt_asymmetric(a[0], a[k + 1]);
                assert(b.contains(x));
                let l = choose|l: int| 0 <= l < b.len() && b[l] == x;
                assert(rb[l - 1] == x);
            }
            if rb.contains(x) {
                let k = choose|k: int| 0 <= k < rb.len() && rb[k] == x;
                assert(b[k + 1] == x);
                text::lemma_text_lt_asymmetric(b[0], b[k + 1]);
                assert(a.contains(x));
                let l = choose|l: int| 0 <= l < a.len() && a[l] == x;
                assert(ra[l - 1] == x);
            }
        }
        assert(ascending(ra)) by {
            assert forall|p: int, q: int| 0 <= p < q < ra.len() implies text::text_lt(
                #[trigger] ra[p],
                #[trigger] ra[q],
            ) by {
                assert(text::text_lt(a[p + 1], a[q + 1]));
            }
        }
        assert(ascending(rb)) by {
            assert forall|p: int, q: int| 0 <= p < q < rb.len() implies text::text_lt(
                #[trigger] rb[p],
                #[trigger] rb[q],
            ) by {
                assert(text::text_lt(b[p + 1], b[q + 1]));
            }
        }
        lemma_ascending_unique(ra, rb);
        assert(a =~= seq![a[0]] + ra);
        assert(b =~= seq![b[0]] + rb);
    }
}

/// A set of names.
#[derive(Debug)]
pub struct NameSet {
    names: Vec<String>,
}

impl NameSet {
    /// The names in order.
    pub closed spec fn listing(&self) -> Seq<Seq<char>> {
        text::texts(self.names@)
    }

    /// Whether the names are in ascending order.
    pub open spec fn valid(&self) -> bool {
        ascending(self.listing())
    }

    /// The set with no names.
    pub fn new() -> (out: NameSet)
        ensures
            out.listing() == Seq::<Seq<char>>::empty(),
            out.valid(),
    {
        let out = NameSet { names: Vec::new() };
        assert(out.listing() =~= seq![]);
        out
    }

    /// The set of the given names.
    pub fn from_vec(names: Vec<String>) -> (out: NameSet)
        ensures
            out.listing() == sorted_names(text::texts(names@)),
            out.valid(),
    {
        let mut out = NameSet::new();
        let ghost all = text::texts(names@);
        for i in 0..names.len()
            invariant
                all == text::texts(names@),
                out.valid(),
                out.listing() == sorted_names(all.take(i as int)),
        {
            assert(all.take(i + 1).drop_last() =~= all.take(i as int));
            out.insert(names[i].as_str());
        }
        assert(all.take(all.len() as int) =~= all);
        out
    }

    /// How many names the set has.
    pub fn len(&self) -> (n: usize)
        ensures
            n == self.listing().len(),
    {
        self.names.len()
    }

    /// Whether the set has no names.
    pub fn is_empty(&self) -> (b: bool)
        ensures
            b == (self.listing().len() == 0),
    {
        self.names.len() == 0
    }

    /// The name at an index of the list.
    pub fn get(&self, i: usize) -> (name: &str)
        requires
            i < self.listing().len(),
        ensures
            name@ == self.listing()[i as int],
    {
        self.names[i].as_str()
    }

    /// Whether the set has the name.
    pub fn contains(&self, name: &str) -> (found: bool)
        ensures
            found == self.listing().contains(name@),
    {
        let ghost list = self.listing();
        for i in 0..self.names.len()
            invariant
                list == self.listing(),
                list.len() == self.names@.len(),
                forall|j: int| 0 <= j < i ==> list[j] != name@,
        {
            assert(list[i as int] == self.names@[i as int]@);
            if same_text(self.names[i].as_str(), name) {
                return true;
            }
        }
        false
    }

    /// Puts a name into the set.
    pub fn insert(&mut self, name: &str)
        ensures
            old(self).valid() ==> final(self).valid(),
            final(self).listing() == with_name(old(self).listing(), name@),
    {
        proof {
            if self.valid() {
                lemma_with_name(self.listing(), name@);
            }
        }
        if self.contains(name) {
            return ;
        }
        let ghost list = self.listing();
        let mut k: usize = 0;
        while k < self.names.len() && text_less(self.names[k].as_str(), name)
            invariant
                k <= self.names@.len(),
                self.names@ == old(self).names@,
                list == self.listing(),
                list.len() == self.names@.len(),
                forall|i: int| 0 <= i < k ==> text::text_lt(#[trigger] list[i], name@),
            decreases self.names.len() - k,
        {
            assert(list[k as int] == self.names@[k as int]@);
            k += 1;
        }
        proof {
            if k < list.len() {
                assert(list[k as int] == self.names@[k as int]@);
            }
            lemma_rank_is(list, name@, k as int);
        }
        self.names.insert(k, owned(name));
        assert(self.listing() =~= with_name(list, name@));
    }

    /// Puts the names of another set into this one.
    pub fn extend(&mut self, other: &NameSet)
        ensures
            old(self).valid() ==> final(self).valid(),
            final(self).listing() == with_names(old(self).listing(), other.listing()),
    {
        let ghost more = other.listing();
        assert(more.take(0) =~= seq![]);
        for i in 0..other.names.len()
            invariant
                more == other.listing(),
                more.len() == other.names@.len(),
                old(self).valid() ==> self.valid(),
                self.listing() == with_names(old(self).listing(), more.take(i as int)),
        {
            assert(more.take(i + 1).drop_last() =~= more.take(i as int));
            assert(more[i as int] == other.names@[i as int]@);
            self.insert(other.names[i].as_str());
        }
        assert(more.take(more.len() as int) =~= more);
    }
}

impl Default for NameSet {
    fn default() -> (out: NameSet)
        ensures
            out.listing() == Seq::<Seq<char>>::empty(),
            out.valid(),
    {
        NameSet::new()
    }
}

/// The list with further names at their places.
pub open spec fn with_names(list: Seq<Seq<char>>, more: Seq<Seq<char>>) -> Seq<Seq<char>>
    decreases more.len(),
{
    if more.len() == 0 {
        list
    } else {
        with_name(with_names(list, more.drop_last()), more.last())
    }
}

/// Names may be put in one lot after another.
pub proof fn lemma_with_names_in_turn(
    list: Seq<Seq<char>>,
    first: Seq<Seq<char>>,
    second: Seq<Seq<char>>,
)
    ensures
        with_names(with_names(list, first), second) == with_names(list, first + second),
    decreases second.len(),
{
    if second.len() == 0 {
        assert(first + second =~= first);
    } else {
        lemma_with_names_in_turn(list, first, second.drop_last());
        assert((first + second).drop_last() =~= first + second.drop_last());
    }
}

/// Further names keep the order and add just themselves.
pub proof fn lemma_with_names(list: Seq<Seq<char>>, more: Seq<Seq<char>>)
    requires
        ascending(list),
    ensures
        ascending(with_names(list, more)),
        forall|x: Seq<char>|
            #[trigger] with_names(list, more).contains(x) <==> list.contains(x) || more.contains(
                x,
            ),
    decreases more.len(),
{
    if more.len() > 0 {
        let front = more.drop_last();
        lemma_with_names(list, front);
        lemma_with_name(with_names(list, front), more.last());
        assert forall|x: Seq<char>| #[trigger]
            with_names(list, more).contains(x) <==> list.contains(x) || more.contains(x) by {
            if front.contains(x) {
                let i = choose|i: int| 0 <= i < front.len() && front[i] == x;
                assert(more[i] == x);
            }
            if more.contains(x) && x != more.last() {
                let i = choose|i: int| 0 <= i < more.len() && more[i] == x;
                assert(front[i] == x);
            }
            assert(more[more.len() - 1] == more.last());
        }
    }
}

} // verus!
