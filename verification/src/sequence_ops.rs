//! An ordered, growable sequence of 32-bit integers.

use vstd::prelude::*;

verus! {

/// An executable predicate `f` decides the mathematical predicate `p` when
/// every answer that `f` can give for an element is the value of `p` there.
pub open spec fn decides<F: Fn(i32) -> bool>(f: F, p: spec_fn(i32) -> bool) -> bool {
    forall|x: i32, b: bool| #[trigger] call_ensures(f, (x,), b) ==> b == p(x)
}

/// `kept` holds the elements of `s` at the indices `picked`, which rise, and
/// for each element of `s` the predicate `f` has answered whether its index
/// is among them.
pub open spec fn selected_by<F: Fn(i32) -> bool>(
    f: F,
    s: Seq<i32>,
    picked: Seq<int>,
    kept: Seq<i32>,
) -> bool {
    &&& forall|j: int| 0 <= j < picked.len() ==> 0 <= #[trigger] picked[j] < s.len()
    &&& forall|a: int, b: int| 0 <= a < b < picked.len() ==> picked[a] < picked[b]
    &&& kept.len() == picked.len()
    &&& forall|j: int| 0 <= j < picked.len() ==> kept[j] == s[#[trigger] picked[j]]
    &&& forall|i: int| 0 <= i < s.len() ==> call_ensures(f, (s[i],), #[trigger] picked.contains(i))
}

/// `picked` lists, in rising order, the indices of exactly those elements of
/// `s` that `p` accepts.
pub open spec fn picks_accepted(s: Seq<i32>, p: spec_fn(i32) -> bool, picked: Seq<int>) -> bool {
    &&& forall|j: int| 0 <= j < picked.len() ==> 0 <= #[trigger] picked[j] < s.len()
    &&& forall|a: int, b: int| 0 <= a < b < picked.len() ==> picked[a] < picked[b]
    &&& forall|i: int| 0 <= i < s.len() ==> (p(s[i]) <==> #[trigger] picked.contains(i))
}

/// Filtering keeps exactly the accepted elements, in the order they had:
/// the `j`-th element of `s.filter(p)` is the element of `s` at the `j`-th
/// index, in rising order, at which `p` holds.
pub proof fn lemma_filter_keeps_accepted_in_order(s: Seq<i32>, p: spec_fn(i32) -> bool) -> (picked:
    Seq<int>)
    ensures
        picks_accepted(s, p, picked),
        s.filter(p).len() == picked.len(),
        forall|j: int| 0 <= j < picked.len() ==> s.filter(p)[j] == s[#[trigger] picked[j]],
    decreases s.len(),
{
    reveal(Seq::filter);
    if s.len() == 0 {
        Seq::empty()
    } else {
        let front = s.drop_last();
        let last = s.len() - 1;
        let before = lemma_filter_keeps_accepted_in_order(front, p);
        let picked = if p(s.last()) {
            before.push(last)
        } else {
            before
        };
        assert forall|i: int| 0 <= i < s.len() implies (p(s[i]) <==> #[trigger] picked.contains(
            i,
        )) by {
            if i < last {
                assert(front[i] == s[i]);
                if before.contains(i) {
                    let j = choose|j: int| 0 <= j < before.len() && before[j] == i;
                    assert(picked[j] == i);
                }
                if picked.contains(i) {
                    let j = choose|j: int| 0 <= j < picked.len() && picked[j] == i;
                    assert(before[j] == i);
                }
            } else {
                if p(s.last()) {
                    assert(picked[picked.len() - 1] == i);
                } else if picked.contains(i) {
                    let j = choose|j: int| 0 <= j < picked.len() && picked[j] == i;
                    assert(before[j] < front.len());
                }
            }
        }
        assert forall|j: int| 0 <= j < picked.len() implies s.filter(p)[j] == s[#[trigger] picked[j]] by {
            if j < before.len() {
                assert(front.filter(p)[j] == front[before[j]]);
            }
        }
        picked
    }
}

/// Where `f` decides `p`, what `f` selects from `s` is `s` filtered by `p`.
pub proof fn lemma_selected_is_filtered<F: Fn(i32) -> bool>(
    f: F,
    s: Seq<i32>,
    picked: Seq<int>,
    kept: Seq<i32>,
    p: spec_fn(i32) -> bool,
)
    requires
        selected_by(f, s, picked, kept),
        decides(f, p),
    ensures
        kept == s.filter(p),
    decreases s.len(),
{
    reveal(Seq::filter);
    if s.len() == 0 {
        if picked.len() > 0 {
            assert(0 <= picked[0] < s.len());
        }
        assert(kept =~= s.filter(p));
    } else {
        let last = s.len() - 1;
        let front = s.drop_last();
        let top = picked.len() - 1;
        assert(call_ensures(f, (s[last],), picked.contains(last)));
        if picked.contains(last) {
            let j = choose|j: int| 0 <= j < picked.len() && picked[j] == last;
            if j < top {
                assert(picked[j] < picked[top]);
            }
            let picked2 = picked.drop_last();
            let kept2 = kept.drop_last();
            assert forall|a: int| 0 <= a < picked2.len() implies 0 <= #[trigger] picked2[a]
                < front.len() by {
                assert(picked[a] < picked[top]);
            }
            assert forall|i: int| 0 <= i < front.len() implies call_ensures(
                f,
                (front[i],),
                #[trigger] picked2.contains(i),
            ) by {
                assert(call_ensures(f, (s[i],), picked.contains(i)));
                if picked.contains(i) {
                    let a = choose|a: int| 0 <= a < picked.len() && picked[a] == i;
                    assert(picked2[a] == i);
                }
                if picked2.contains(i) {
                    let a = choose|a: int| 0 <= a < picked2.len() && picked2[a] == i;
                    assert(picked[a] == i);
                }
            }
            assert forall|a: int| 0 <= a < picked2.len() implies kept2[a] == front[#[trigger] picked2[a]] by {
                assert(kept[a] == s[picked[a]]);
            }
            lemma_selected_is_filtered(f, front, picked2, kept2, p);
            assert(kept[top] == s[picked[top]]);
            assert(kept =~= kept2.push(s[last]));
        } else {
            assert forall|a: int| 0 <= a < picked.len() implies 0 <= #[trigger] picked[a]
                < front.len() by {
                if picked[a] == last {
                    assert(picked.contains(last));
                }
            }
            assert forall|i: int| 0 <= i < front.len() implies call_ensures(
                f,
                (front[i],),
                #[trigger] picked.contains(i),
            ) by {
                assert(call_ensures(f, (s[i],), picked.contains(i)));
            }
            assert forall|a: int| 0 <= a < picked.len() implies kept[a] == front[#[trigger] picked[a]] by {
                assert(kept[a] == s[picked[a]]);
            }
            lemma_selected_is_filtered(f, front, picked, kept, p);
        }
    }
}

/// An insertion-ordered sequence of integers, addressed by index.
///
/// Its view is the `Seq<i32>` of its elements, first to last.
pub struct Sequence {
    items: Vec<i32>,
}

impl View for Sequence {
    type V = Seq<i32>;

    closed spec fn view(&self) -> Seq<i32> {
        self.items@
    }
}

impl Sequence {
    /// The empty sequence.
    pub fn new() -> (result: Sequence)
        ensures
            result@ == Seq::<i32>::empty(),
    {
        Sequence { items: Vec::new() }
    }

    /// The sequence that holds the elements of `items`, in their order.
    pub fn from_vec(items: Vec<i32>) -> (result: Sequence)
        ensures
            result@ == items@,
    {
        Sequence { items }
    }

    /// The elements, first to last, as a vector.
    pub fn to_vec(&self) -> (result: Vec<i32>)
        ensures
            result@ == self@,
    {
        self.items.clone()
    }

    /// The number of elements.
    pub fn length(&self) -> (result: usize)
        ensures
            result == self@.len(),
    {
        self.items.len()
    }

    /// Adds `value` behind the last element.
    pub fn append(&mut self, value: i32)
        ensures
            final(self)@ == old(self)@.push(value),
    {
        self.items.push(value);
    }

    /// The element at `index`, or `None` where `index` is not below the length.
    pub fn get(&self, index: usize) -> (result: Option<i32>)
        ensures
            index < self@.len() ==> result == Some(self@[index as int]),
            index >= self@.len() ==> result is None,
    {
        if index < self.items.len() {
            Some(self.items[index])
        } else {
            None
        }
    }

    /// A new sequence of the elements that `f` accepts, in their order.
    ///
    /// `f` must be callable on every element. The result holds the elements
    /// for which `f` answered true, at rising indices. Whatever mathematical
    /// predicate `f` decides, the result is this sequence filtered by it.
    pub fn filtered<F: Fn(i32) -> bool>(&self, f: F) -> (result: Sequence)
        requires
            forall|i: int| 0 <= i < self@.len() ==> call_requires(f, (#[trigger] self@[i],)),
        ensures
            exists|picked: Seq<int>| #[trigger] selected_by(f, self@, picked, result@),
            forall|p: spec_fn(i32) -> bool| #[trigger] decides(f, p) ==> result@ == self@.filter(p),
    {
        let kept = keep_accepted(&self.items, f);
        let result = Sequence { items: kept };
        proof {
            let picked = choose|picked: Seq<int>| selected_by(f, self.items@, picked, result.items@);
            assert(selected_by(f, self@, picked, result@));
        }
        result
    }

    /// Removes the elements that `f` rejects; those that stay keep their order.
    ///
    /// `f` must be callable on every element. The elements that stay are
    /// those for which `f` answered true. Whatever mathematical predicate `f`
    /// decides, the sequence becomes its old value filtered by it.
    pub fn retain<F: Fn(i32) -> bool>(&mut self, f: F)
        requires
            forall|i: int| 0 <= i < old(self)@.len() ==> call_requires(f, (#[trigger] old(self)@[i],)),
        ensures
            exists|picked: Seq<int>| #[trigger] selected_by(f, old(self)@, picked, final(self)@),
            forall|p: spec_fn(i32) -> bool| #[trigger]
                decides(f, p) ==> final(self)@ == old(self)@.filter(p),
    {
        let kept = keep_accepted(&self.items, f);
        let ghost picked = choose|picked: Seq<int>| selected_by(f, self.items@, picked, kept@);
        self.items = kept;
        proof {
            assert(selected_by(f, old(self)@, picked, self@));
        }
    }
}

/// One more element examined: the selection from the first `i` elements of
/// `s`, extended by index `i` exactly where `f` answered true for `s[i]`, is
/// a selection from the first `i + 1`.
proof fn lemma_selected_step<F: Fn(i32) -> bool>(
    f: F,
    s: Seq<i32>,
    i: int,
    picked: Seq<int>,
    kept: Seq<i32>,
    accepted: bool,
)
    requires
        0 <= i < s.len(),
        selected_by(f, s.take(i), picked, kept),
        call_ensures(f, (s[i],), accepted),
    ensures
        accepted ==> selected_by(f, s.take(i + 1), picked.push(i), kept.push(s[i])),
        !accepted ==> selected_by(f, s.take(i + 1), picked, kept),
{
    let front = s.take(i);
    let longer = s.take(i + 1);
    let picked2 = if accepted {
        picked.push(i)
    } else {
        picked
    };
    assert forall|t: int| 0 <= t < longer.len() implies call_ensures(
        f,
        (longer[t],),
        #[trigger] picked2.contains(t),
    ) by {
        if t < i {
            assert(front[t] == longer[t]);
            assert(call_ensures(f, (front[t],), picked.contains(t)));
            if picked.contains(t) {
                let j = choose|j: int| 0 <= j < picked.len() && picked[j] == t;
                assert(picked2[j] == t);
            }
            if picked2.contains(t) {
                let j = choose|j: int| 0 <= j < picked2.len() && picked2[j] == t;
                assert(picked[j] == t);
            }
        } else {
            if accepted {
                assert(picked2[picked2.len() - 1] == t);
            } else if picked2.contains(t) {
                let j = choose|j: int| 0 <= j < picked2.len() && picked2[j] == t;
                assert(picked[j] < front.len());
            }
        }
    }
    assert forall|j: int| 0 <= j < picked.len() implies longer[#[trigger] picked[j]] == front[picked[j]] by {
        assert(picked[j] < front.len());
    }
}

/// The elements of `items` that `f` accepts, in their order.
fn keep_accepted<F: Fn(i32) -> bool>(items: &Vec<i32>, f: F) -> (kept: Vec<i32>)
    requires
        forall|i: int| 0 <= i < items@.len() ==> call_requires(f, (#[trigger] items@[i],)),
    ensures
        exists|picked: Seq<int>| #[trigger] selected_by(f, items@, picked, kept@),
        forall|p: spec_fn(i32) -> bool| #[trigger] decides(f, p) ==> kept@ == items@.filter(p),
{
    let mut kept: Vec<i32> = Vec::new();
    let mut i: usize = 0;
    let ghost mut picked: Seq<int> = Seq::empty();
    while i < items.len()
        invariant
            i <= items@.len(),
            forall|j: int| 0 <= j < items@.len() ==> call_requires(f, (#[trigger] items@[j],)),
            selected_by(f, items@.take(i as int), picked, kept@),
        decreases items@.len() - i,
    {
        let x: i32 = items[i];
        let accepted: bool = f(x);
        proof {
            lemma_selected_step(f, items@, i as int, picked, kept@, accepted);
        }
        if accepted {
            kept.push(x);
            proof {
                picked = picked.push(i as int);
            }
        }
        i = i + 1;
    }
    proof {
        assert(items@.take(i as int) =~= items@);
        assert forall|p: spec_fn(i32) -> bool| #[trigger] decides(f, p) implies kept@
            == items@.filter(p) by {
            lemma_selected_is_filtered(f, items@, picked, kept@, p);
        }
    }
    kept
}

} // verus!
