//! Laws of the list's model.
//!
//! The push/pop contracts describe each operation's effect on the list's
//! view, a sequence of payloads. These lemmas state what whole sequences of
//! such operations do to that view: how the length tracks pushes and pops,
//! that push/pop round-trips give the pushed element back, and that pushing
//! to the back hands elements out in order while pushing to the front hands
//! them out reversed.

use vstd::prelude::*;

verus! {

/// One list operation, as the contracts see it: what it pushes, or which
/// end it pops.
pub enum ListOp<A> {
    PushFront(A),
    PushBack(A),
    PopFront,
    PopBack,
}

/// The view after one operation, exactly as the contracts of `push_front`,
/// `push_back`, `pop_front` and `pop_back` state it: pushes extend the view
/// at the chosen end, pops on a non-empty view drop the chosen end, and pops
/// on an empty view report "empty" and change nothing.
pub open spec fn apply_op<A>(s: Seq<A>, op: ListOp<A>) -> Seq<A> {
    match op {
        ListOp::PushFront(a) => seq![a] + s,
        ListOp::PushBack(a) => s.push(a),
        ListOp::PopFront => if s.len() == 0 {
            s
        } else {
            s.drop_first()
        },
        ListOp::PopBack => if s.len() == 0 {
            s
        } else {
            s.drop_last()
        },
    }
}

/// The view after a whole sequence of operations.
pub open spec fn apply_ops<A>(s: Seq<A>, ops: Seq<ListOp<A>>) -> Seq<A>
    decreases ops.len(),
{
    if ops.len() == 0 {
        s
    } else {
        apply_ops(apply_op(s, ops[0]), ops.drop_first())
    }
}

/// The length after one operation: a push adds one, a pop takes one away
/// unless nothing is outstanding.
pub open spec fn op_len<A>(len: int, op: ListOp<A>) -> int {
    match op {
        ListOp::PushFront(_) => len + 1,
        ListOp::PushBack(_) => len + 1,
        ListOp::PopFront => if len == 0 {
            0
        } else {
            len - 1
        },
        ListOp::PopBack => if len == 0 {
            0
        } else {
            len - 1
        },
    }
}

/// The length after a whole sequence of operations.
pub open spec fn ops_len<A>(len: int, ops: Seq<ListOp<A>>) -> int
    decreases ops.len(),
{
    if ops.len() == 0 {
        len
    } else {
        ops_len(op_len(len, ops[0]), ops.drop_first())
    }
}

/// For every sequence of push and pop operations, the list's length is the
/// number of outstanding pushes minus the pops that removed an element: the
/// pure length accounting `ops_len` predicts the length of the view without
/// looking at any element.
pub proof fn lemma_len_tracks_ops<A>(s: Seq<A>, ops: Seq<ListOp<A>>)
    ensures
        apply_ops(s, ops).len() == ops_len(s.len() as int, ops),
    decreases ops.len(),
{
    if ops.len() > 0 {
        lemma_len_tracks_ops(apply_op(s, ops[0]), ops.drop_first());
    }
}

/// Round-trip: pushing a value and immediately popping from the same end
/// returns exactly that value and leaves the view as it was. On an empty
/// view, the pushed element is also what a pop from the opposite end
/// returns.
pub proof fn lemma_push_pop_round_trip<A>(s: Seq<A>, x: A)
    ensures
        s.push(x).len() == s.len() + 1,
        s.push(x).last() == x,
        s.push(x).drop_last() =~= s,
        (seq![x] + s)[0] == x,
        (seq![x] + s).drop_first() =~= s,
        Seq::<A>::empty().push(x) =~= seq![x] + Seq::<A>::empty(),
        seq![x][0] == x,
        seq![x].last() == x,
        seq![x].drop_first() =~= Seq::<A>::empty(),
        seq![x].drop_last() =~= Seq::<A>::empty(),
{
}

/// The view after pushing the values of `xs` to the back, left to right.
pub open spec fn pushed_back<A>(s: Seq<A>, xs: Seq<A>) -> Seq<A>
    decreases xs.len(),
{
    if xs.len() == 0 {
        s
    } else {
        pushed_back(s.push(xs[0]), xs.drop_first())
    }
}

/// The view after pushing the values of `xs` to the front, left to right.
pub open spec fn pushed_front<A>(s: Seq<A>, xs: Seq<A>) -> Seq<A>
    decreases xs.len(),
{
    if xs.len() == 0 {
        s
    } else {
        pushed_front(seq![xs[0]] + s, xs.drop_first())
    }
}

proof fn lemma_pushed_back_general<A>(s: Seq<A>, xs: Seq<A>)
    ensures
        pushed_back(s, xs) =~= s + xs,
    decreases xs.len(),
{
    if xs.len() > 0 {
        lemma_pushed_back_general(s.push(xs[0]), xs.drop_first());
        assert(s.push(xs[0]) + xs.drop_first() =~= s + xs);
    }
}

proof fn lemma_pushed_front_general<A>(s: Seq<A>, xs: Seq<A>)
    ensures
        pushed_front(s, xs) =~= xs.reverse() + s,
    decreases xs.len(),
{
    if xs.len() > 0 {
        lemma_pushed_front_general(seq![xs[0]] + s, xs.drop_first());
        assert(xs.drop_first().reverse() + (seq![xs[0]] + s) =~= xs.reverse() + s);
    }
}

/// First-in, first-out: pushing distinct values to the back of an empty
/// list yields a view equal to the pushed sequence, so popping the front
/// returns them in original order; pushing them to the front yields the
/// reversed view, so popping the front returns them in reverse order. The
/// `skip` clauses say what each successive `pop_front` returns.
pub proof fn lemma_fifo<A>(xs: Seq<A>)
    ensures
        pushed_back(Seq::<A>::empty(), xs) =~= xs,
        pushed_front(Seq::<A>::empty(), xs) =~= xs.reverse(),
        forall|k: int|
            0 <= k < xs.len() ==> #[trigger] xs.skip(k)[0] == xs[k] && xs.skip(k).drop_first()
                =~= xs.skip(k + 1),
{
    lemma_pushed_back_general(Seq::<A>::empty(), xs);
    assert(Seq::<A>::empty() + xs =~= xs);
    lemma_pushed_front_general(Seq::<A>::empty(), xs);
    assert(xs.reverse() + Seq::<A>::empty() =~= xs.reverse());
}

} // verus!
