//! First come, first served: how the seats of a program are given out
//! within one preference round.

use crate::block::Block;
use crate::model::{
    lemma_grows_keeps, lemma_grows_trans, lemma_place_effect, lemma_pref_fold, lemma_pref_step,
    lemma_round_order, AppView,
};
use crate::program::{ProgramId, StudentId};
use vstd::prelude::*;

verus! {

/// Every entry of the order is a student of the state.
pub open spec fn order_in_range(a: AppView, order: Seq<StudentId>) -> bool {
    forall|k: int| 0 <= k < order.len() ==> #[trigger] order[k] < a.students.len()
}

/// The state before, and the state after, the turn at position `i` of the
/// order.
pub open spec fn before_turn(a: AppView, order: Seq<StudentId>, b: Block, r: int, i: int) -> AppView {
    a.pref_fold(order.take(i), b, r)
}

pub open spec fn after_turn(a: AppView, order: Seq<StudentId>, b: Block, r: int, i: int) -> AppView {
    before_turn(a, order, b, r, i).pref_step(order[i], b, r)
}

/// The turns of two lists in a row are the turns of the joined list.
pub proof fn lemma_pref_fold_split(
    a: AppView,
    xs: Seq<StudentId>,
    ys: Seq<StudentId>,
    b: Block,
    r: int,
)
    ensures
        a.pref_fold(xs + ys, b, r) == a.pref_fold(xs, b, r).pref_fold(ys, b, r),
    decreases ys.len(),
{
    if ys.len() == 0 {
        assert(xs + ys =~= xs);
    } else {
        lemma_pref_fold_split(a, xs, ys.drop_last(), b, r);
        assert((xs + ys).drop_last() =~= xs + ys.drop_last());
        assert((xs + ys).last() == ys.last());
    }
}

/// A student's turn changes no other student.
pub proof fn lemma_pref_step_other(a: AppView, s: StudentId, t: StudentId, b: Block, r: int)
    requires
        s < a.students.len(),
        t < a.students.len(),
        s != t,
    ensures
        a.pref_step(s, b, r).student(t) == a.student(t),
{
}

/// The turns of a list change no student outside the list.
pub proof fn lemma_pref_fold_other(
    a: AppView,
    order: Seq<StudentId>,
    b: Block,
    r: int,
    t: StudentId,
)
    requires
        a.wf(),
        order_in_range(a, order),
        t < a.students.len(),
        !order.contains(t),
    ensures
        a.pref_fold(order, b, r).student(t) == a.student(t),
    decreases order.len(),
{
    if order.len() > 0 {
        let front = order.drop_last();
        assert(order_in_range(a, front)) by {
            assert forall|k: int| 0 <= k < front.len() implies #[trigger] front[k]
                < a.students.len() by {
                assert(front[k] == order[k]);
            }
        }
        assert(!front.contains(t)) by {
            if front.contains(t) {
                let k = choose|k: int| 0 <= k < front.len() && front[k] == t;
                assert(order[k] == t);
            }
        }
        lemma_pref_fold_other(a, front, b, r, t);
        lemma_pref_fold(a, front, b, r);
        let s = order.last();
        assert(order[order.len() - 1] == s);
        lemma_pref_step_other(a.pref_fold(front, b, r), s, t, b, r);
    }
}

/// The turns of a list in which nobody asks for a seat in `p` leave `p` as
/// it is.
pub proof fn lemma_pref_fold_program(
    a: AppView,
    order: Seq<StudentId>,
    b: Block,
    r: int,
    p: ProgramId,
)
    requires
        a.wf(),
        order_in_range(a, order),
        order.no_duplicates(),
        p < a.programs.len(),
        forall|k: int| 0 <= k < order.len() ==> !a.contends(#[trigger] order[k], b, r, p),
    ensures
        a.pref_fold(order, b, r).program(p) == a.program(p),
    decreases order.len(),
{
    if order.len() > 0 {
        let front = order.drop_last();
        let s = order.last();
        assert(order[order.len() - 1] == s);
        assert(order_in_range(a, front)) by {
            assert forall|k: int| 0 <= k < front.len() implies #[trigger] front[k]
                < a.students.len() by {
                assert(front[k] == order[k]);
            }
        }
        assert forall|k: int| 0 <= k < front.len() implies !a.contends(
            #[trigger] front[k],
            b,
            r,
            p,
        ) by {
            assert(front[k] == order[k]);
        }
        assert(!front.contains(s)) by {
            if front.contains(s) {
                let k = choose|k: int| 0 <= k < front.len() && front[k] == s;
                assert(order[k] == s);
            }
        }
        lemma_pref_fold_program(a, front, b, r, p);
        lemma_pref_fold_other(a, front, b, r, s);
        lemma_pref_fold(a, front, b, r);
        let m = a.pref_fold(front, b, r);
        assert(!m.contends(s, b, r, p));
        assert(m.student_ok(s));
        assert(m.wish_ok(s, b, r));
        if m.student(s).assignment(b) is None {
            if let Some(q) = m.student(s).pref(b, r) {
                if !m.program(q).is_full() {
                    lemma_place_effect(m, s, q, b);
                }
            }
        }
    }
}

/// The run of a round, cut at one turn: the turns before it, the turn
/// itself, and the turns after it, each of which only adds to the state.
pub proof fn lemma_turn(a: AppView, order: Seq<StudentId>, b: Block, r: int, i: int)
    requires
        a.wf(),
        order_in_range(a, order),
        0 <= i < order.len(),
    ensures
        before_turn(a, order, b, r, i).wf(),
        after_turn(a, order, b, r, i).wf(),
        a.pref_fold(order, b, r).wf(),
        a.grows_to(before_turn(a, order, b, r, i)),
        before_turn(a, order, b, r, i).grows_to(after_turn(a, order, b, r, i)),
        after_turn(a, order, b, r, i).grows_to(a.pref_fold(order, b, r)),
        after_turn(a, order, b, r, i) == a.pref_fold(order.take(i + 1), b, r),
        a.pref_fold(order, b, r) == after_turn(a, order, b, r, i).pref_fold(
            order.skip(i + 1),
            b,
            r,
        ),
{
    let head = order.take(i);
    let upto = order.take(i + 1);
    let tail = order.skip(i + 1);
    let before = before_turn(a, order, b, r, i);
    let after = after_turn(a, order, b, r, i);
    assert(order_in_range(a, head));
    lemma_pref_fold(a, head, b, r);
    lemma_pref_step(before, order[i], b, r);
    assert(upto.drop_last() =~= head);
    assert(upto.last() == order[i]);
    assert(upto + tail =~= order);
    lemma_pref_fold_split(a, upto, tail, b, r);
    assert(order_in_range(after, tail));
    lemma_pref_fold(after, tail, b, r);
}

/// Whoever asks for a seat in a program and is left without an assignment
/// at the end of the round found the program full, and it is full at the
/// end of the round.
pub proof fn left_out_means_full(
    a: AppView,
    order: Seq<StudentId>,
    b: Block,
    r: int,
    i: int,
    p: ProgramId,
)
    requires
        a.wf(),
        order_in_range(a, order),
        order.no_duplicates(),
        0 <= i < order.len(),
        a.contends(order[i], b, r, p),
        a.pref_fold(order, b, r).student(order[i]).assignment(b) is None,
    ensures
        before_turn(a, order, b, r, i).program(p).is_full(),
        a.pref_fold(order, b, r).program(p).is_full(),
{
    let s = order[i];
    let before = before_turn(a, order, b, r, i);
    let after = after_turn(a, order, b, r, i);
    let z = a.pref_fold(order, b, r);
    lemma_turn(a, order, b, r, i);
    lemma_own_turn(a, order, b, r, i, p);
    assert(after.student_grows(z, s));
    lemma_grows_keeps(before, after);
    lemma_grows_keeps(after, z);
    assert(a.student_ok(s));
    assert(a.wish_ok(s, b, r));
}

/// At their own turn a student who asked for a seat on entry still asks
/// for it, and gets it exactly if the program is not full.
pub proof fn lemma_own_turn(
    a: AppView,
    order: Seq<StudentId>,
    b: Block,
    r: int,
    i: int,
    p: ProgramId,
)
    requires
        a.wf(),
        order_in_range(a, order),
        order.no_duplicates(),
        0 <= i < order.len(),
        a.contends(order[i], b, r, p),
    ensures
        p < a.programs.len(),
        before_turn(a, order, b, r, i).contends(order[i], b, r, p),
        after_turn(a, order, b, r, i).student(order[i]).assignment(b) == (if before_turn(
            a,
            order,
            b,
            r,
            i,
        ).program(p).is_full() {
            None
        } else {
            Some(p)
        }),
{
    let s = order[i];
    let head = order.take(i);
    let before = before_turn(a, order, b, r, i);
    assert(a.student_ok(s));
    assert(a.wish_ok(s, b, r));
    assert(order_in_range(a, head));
    assert(!head.contains(s)) by {
        if head.contains(s) {
            let k = choose|k: int| 0 <= k < head.len() && head[k] == s;
            assert(order[k] == s);
        }
    }
    lemma_pref_fold_other(a, head, b, r, s);
    lemma_pref_fold(a, head, b, r);
    if !before.program(p).is_full() {
        lemma_place_effect(before, s, p, b);
    }
}

/// Of two students who ask for a seat in the same program, the one whose
/// turn comes later gets it only if the one whose turn comes earlier got it.
pub proof fn earlier_turn_has_priority(
    a: AppView,
    order: Seq<StudentId>,
    b: Block,
    r: int,
    i: int,
    j: int,
    p: ProgramId,
)
    requires
        a.wf(),
        order_in_range(a, order),
        order.no_duplicates(),
        0 <= i < j < order.len(),
        a.contends(order[i], b, r, p),
        a.contends(order[j], b, r, p),
        a.pref_fold(order, b, r).student(order[j]).assignment(b) == Some(p),
    ensures
        a.pref_fold(order, b, r).student(order[i]).assignment(b) == Some(p),
{
    let z = a.pref_fold(order, b, r);
    let before_i = before_turn(a, order, b, r, i);
    let after_i = after_turn(a, order, b, r, i);
    let before_j = before_turn(a, order, b, r, j);
    let after_j = after_turn(a, order, b, r, j);
    lemma_turn(a, order, b, r, i);
    lemma_turn(a, order, b, r, j);
    lemma_own_turn(a, order, b, r, i, p);
    lemma_own_turn(a, order, b, r, j, p);
    // The state before the later turn arises from the state after the
    // earlier one.
    let between = order.subrange(i + 1, j);
    assert(order.take(i + 1) + between =~= order.take(j));
    lemma_pref_fold_split(a, order.take(i + 1), between, b, r);
    assert(order_in_range(after_i, between));
    lemma_pref_fold(after_i, between, b, r);
    lemma_grows_trans(before_i, after_i, before_j);
    lemma_grows_keeps(before_i, before_j);
    // The later student is not touched after their turn.
    let tail = order.skip(j + 1);
    assert(order_in_range(after_j, tail));
    assert(!tail.contains(order[j])) by {
        if tail.contains(order[j]) {
            let k = choose|k: int| 0 <= k < tail.len() && tail[k] == order[j];
            assert(order[j + 1 + k] == order[j]);
        }
    }
    lemma_pref_fold_other(after_j, tail, b, r, order[j]);
    assert(!before_j.program(p).is_full());
    assert(!before_i.program(p).is_full());
    assert(after_i.student_grows(z, order[i]));
}

/// The first student in the order who asks for a seat in a program that is
/// not full gets it.
pub proof fn first_to_ask_is_seated(
    a: AppView,
    order: Seq<StudentId>,
    b: Block,
    r: int,
    i: int,
    p: ProgramId,
)
    requires
        a.wf(),
        order_in_range(a, order),
        order.no_duplicates(),
        0 <= i < order.len(),
        a.contends(order[i], b, r, p),
        !a.program(p).is_full(),
        forall|k: int| 0 <= k < i ==> !a.contends(#[trigger] order[k], b, r, p),
    ensures
        a.pref_fold(order, b, r).student(order[i]).assignment(b) == Some(p),
{
    let z = a.pref_fold(order, b, r);
    let head = order.take(i);
    let after = after_turn(a, order, b, r, i);
    lemma_turn(a, order, b, r, i);
    lemma_own_turn(a, order, b, r, i, p);
    assert(order_in_range(a, head));
    assert(head.no_duplicates());
    assert forall|k: int| 0 <= k < head.len() implies !a.contends(#[trigger] head[k], b, r, p) by {
        assert(head[k] == order[k]);
    }
    lemma_pref_fold_program(a, head, b, r, p);
    assert(after.student_grows(z, order[i]));
}

/// Within a preference round the seats of a program go to those who ask
/// for them in the order of their turns. Of two students who ask for a seat
/// in the same program, the later one gets it only if the earlier one did; a
/// student who is left out leaves the program full; and the first to ask
/// for a seat in a program that is not full gets it.
pub proof fn round_is_first_come_first_served(
    a: AppView,
    b: Block,
    r: int,
    i: int,
    j: int,
    p: ProgramId,
)
    requires
        a.wf(),
        0 <= i < j < a.students.len(),
        a.contends(a.round_order()[i], b, r, p),
    ensures
        a.round_order().len() == a.students.len(),
        a.contends(a.round_order()[j], b, r, p) && a.pref_round(b, r).student(
            a.round_order()[j],
        ).assignment(b) == Some(p) ==> a.pref_round(b, r).student(a.round_order()[i]).assignment(b)
            == Some(p),
        a.pref_round(b, r).student(a.round_order()[i]).assignment(b) is None ==> a.pref_round(
            b,
            r,
        ).program(p).is_full(),
        !a.program(p).is_full() && (forall|k: int|
            0 <= k < i ==> !a.contends(#[trigger] a.round_order()[k], b, r, p)) ==> a.pref_round(
            b,
            r,
        ).student(a.round_order()[i]).assignment(b) == Some(p),
{
    let order = a.round_order();
    let z = a.pref_round(b, r);
    lemma_round_order(a);
    assert(order_in_range(a, order));
    if a.contends(order[j], b, r, p) && z.student(order[j]).assignment(b) == Some(p) {
        earlier_turn_has_priority(a, order, b, r, i, j, p);
    }
    if z.student(order[i]).assignment(b) is None {
        left_out_means_full(a, order, b, r, i, p);
    }
    if !a.program(p).is_full() && (forall|k: int|
        0 <= k < i ==> !a.contends(#[trigger] order[k], b, r, p)) {
        first_to_ask_is_seated(a, order, b, r, i, p);
    }
}

} // verus!
