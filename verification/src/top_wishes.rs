//! When the first wishes fit: if nobody's first wish has to be turned down
//! for want of seats, the run grants every first wish.

use crate::block::{lemma_block_index, Block};
use crate::laws::top_wishes_score_zero;
use crate::model::{
    lemma_grows_refl, lemma_grows_trans, lemma_place, lemma_place_effect, lemma_pref_step,
    lemma_round_order, lemma_wishes_static, AppView,
};
use crate::order::iota;
use crate::program::{ProgramId, StudentId};
use crate::rounds::order_in_range;
use vstd::prelude::*;
use vstd::seq_lib::seq_to_set_is_finite;
use vstd::set_lib::{lemma_len_subset, lemma_set_subset_finite};

verus! {

/// The students whose first wish for the program's block is the program.
pub open spec fn wants(a: AppView, p: ProgramId) -> Set<StudentId> {
    Set::new(
        |s: StudentId|
            s < a.students.len() && a.student(s).pref(a.program(p).block, 0) == Some(p),
    )
}

/// Every wish names a program of its block, every student has a first wish
/// for every block, and no program is the first wish of more students than
/// it admits.
pub open spec fn top_wishes_fit(a: AppView) -> bool {
    &&& a.wishes_in_block()
    &&& forall|s: StudentId, b: Block|
        s < a.students.len() ==> (#[trigger] a.student(s).pref(b, 0)) is Some
    &&& forall|p: ProgramId|
        p < a.programs.len() ==> (#[trigger] wants(a, p)).len() <= a.program(p).max_cap
}

/// Every assignment made so far is the student's first wish for the block.
pub open spec fn only_top_wishes(a: AppView) -> bool {
    forall|s: StudentId, b: Block|
        s < a.students.len() ==> (#[trigger] a.student(s).assignment(b) matches Some(p)
            ==> a.student(s).pref(b, 0) == Some(p))
}

/// No roster lists a student twice.
pub open spec fn rosters_distinct(a: AppView) -> bool {
    forall|p: ProgramId|
        p < a.programs.len() ==> (#[trigger] a.program(p)).students.no_duplicates()
}

/// The state of a run in which the first wishes fit and only first wishes
/// have been granted.
pub open spec fn harmonious(a: AppView) -> bool {
    &&& a.wf()
    &&& top_wishes_fit(a)
    &&& only_top_wishes(a)
    &&& rosters_distinct(a)
}

/// Every student is assigned for the block.
pub open spec fn all_assigned(a: AppView, b: Block) -> bool {
    forall|s: StudentId| s < a.students.len() ==> (#[trigger] a.student(s).assignment(b)) is Some
}

proof fn lemma_wants_finite(a: AppView, p: ProgramId)
    requires
        a.students.len() <= usize::MAX,
    ensures
        wants(a, p).finite(),
{
    let ids = iota(a.students.len());
    seq_to_set_is_finite(ids);
    assert(wants(a, p).subset_of(ids.to_set())) by {
        assert forall|s: StudentId| wants(a, p).contains(s) implies ids.to_set().contains(s) by {
            assert(ids[s as int] == s);
        }
    }
    lemma_set_subset_finite(ids.to_set(), wants(a, p));
}

/// Wishes, blocks and capacities never change, so first wishes that fit
/// keep fitting.
proof fn lemma_fit_static(a: AppView, n: AppView)
    requires
        a.grows_to(n),
        top_wishes_fit(a),
    ensures
        top_wishes_fit(n),
{
    lemma_wishes_static(a, n);
    assert forall|s: StudentId, b: Block| s < n.students.len() implies (#[trigger] n.student(
        s,
    ).pref(b, 0)) is Some by {
        assert(a.student_grows(n, s));
        assert(a.student(s).pref(b, 0) is Some);
    }
    assert forall|p: ProgramId| p < n.programs.len() implies (#[trigger] wants(n, p)).len()
        <= n.program(p).max_cap by {
        assert(a.program_grows(n, p));
        assert forall|s: StudentId| wants(n, p).contains(s) == wants(a, p).contains(s) by {
            if s < a.students.len() {
                assert(a.student_grows(n, s));
            }
        }
        assert(wants(n, p) =~= wants(a, p));
    }
}

proof fn lemma_attends_somewhere(a: AppView, t: StudentId, p: ProgramId)
    requires
        a.attends(t, p),
    ensures
        exists|c: Block| a.student(t).assignment(c) == Some(p),
{
}

/// A student whose first wish is still open to them finds a free seat in
/// it, and is not on its roster yet.
proof fn lemma_seat_free(a: AppView, s: StudentId, b: Block, p: ProgramId)
    requires
        harmonious(a),
        a.contends(s, b, 0, p),
    ensures
        p < a.programs.len(),
        a.program(p).block == b,
        !a.program(p).is_full(),
        !a.program(p).students.contains(s),
{
    assert(a.student_ok(s));
    assert(a.wish_ok(s, b, 0));
    assert(a.student(s).pref(b, 0) == Some(p));
    assert(a.program(p).block == b);
    assert(a.program_ok(p));
    let roster = a.program(p).students;
    let w = wants(a, p);
    lemma_wants_finite(a, p);
    assert(w.contains(s));
    assert forall|t: StudentId| roster.contains(t) implies w.contains(t) && t != s by {
        let i = choose|i: int| 0 <= i < roster.len() && roster[i] == t;
        assert(a.entry_ok(p, i));
        lemma_attends_somewhere(a, t, p);
        let c = choose|c: Block| a.student(t).assignment(c) == Some(p);
        assert(a.student(t).pref(c, 0) == Some(p));
        assert(a.program(p).block == c);
    }
    assert(roster.to_set().subset_of(w.remove(s)));
    assert(rosters_distinct(a));
    assert(roster.no_duplicates());
    roster.unique_seq_to_set();
    lemma_len_subset(roster.to_set(), w.remove(s));
    assert(w.len() == w.remove(s).len() + 1);
}

/// A student's turn in the round of first wishes leaves them assigned for
/// the block, and the state as harmonious as it was.
proof fn lemma_top_step(a: AppView, s: StudentId, b: Block)
    requires
        harmonious(a),
        s < a.students.len(),
    ensures
        harmonious(a.pref_step(s, b, 0)),
        a.grows_to(a.pref_step(s, b, 0)),
        a.pref_step(s, b, 0).student(s).assignment(b) is Some,
{
    let n = a.pref_step(s, b, 0);
    lemma_pref_step(a, s, b, 0);
    if a.student(s).assignment(b) is None {
        let p = a.student(s).pref(b, 0)->0;
        assert(a.student(s).pref(b, 0) is Some);
        assert(a.contends(s, b, 0, p));
        lemma_seat_free(a, s, b, p);
        lemma_place(a, s, p, b);
        lemma_place_effect(a, s, p, b);
        lemma_fit_static(a, n);
        assert(a.student_grows(n, s));
        assert forall|t: StudentId, c: Block| t < n.students.len() implies (#[trigger] n.student(
            t,
        ).assignment(c) matches Some(q) ==> n.student(t).pref(c, 0) == Some(q)) by {
            assert(a.student_grows(n, t));
            if t == s && c == b {
            } else {
                assert(n.student(t).assignment(c) == a.student(t).assignment(c));
            }
        }
        assert forall|q: ProgramId| q < n.programs.len() implies (#[trigger] n.program(
            q,
        )).students.no_duplicates() by {
            assert(a.program(q).students.no_duplicates());
            if q == p {
                let old_roster = a.program(p).students;
                let new_roster = n.program(p).students;
                assert(new_roster == old_roster.push(s));
                assert forall|i: int, j: int|
                    0 <= i < new_roster.len() && 0 <= j < new_roster.len() && i != j implies
                    new_roster[i] != new_roster[j] by {
                    if i < old_roster.len() {
                        assert(old_roster.contains(old_roster[i]));
                    }
                    if j < old_roster.len() {
                        assert(old_roster.contains(old_roster[j]));
                    }
                }
            }
        }
    }
}

/// The turns of a list in the round of first wishes leave everyone on the
/// list assigned for the block.
proof fn lemma_top_fold(a: AppView, order: Seq<StudentId>, b: Block)
    requires
        harmonious(a),
        order_in_range(a, order),
    ensures
        harmonious(a.pref_fold(order, b, 0)),
        a.grows_to(a.pref_fold(order, b, 0)),
        forall|k: int|
            0 <= k < order.len() ==> (#[trigger] a.pref_fold(order, b, 0).student(
                order[k],
            ).assignment(b)) is Some,
    decreases order.len(),
{
    if order.len() == 0 {
        lemma_grows_refl(a);
    } else {
        let front = order.drop_last();
        let s = order.last();
        assert(order[order.len() - 1] == s);
        assert(order_in_range(a, front)) by {
            assert forall|k: int| 0 <= k < front.len() implies #[trigger] front[k]
                < a.students.len() by {
                assert(front[k] == order[k]);
            }
        }
        lemma_top_fold(a, front, b);
        let m = a.pref_fold(front, b, 0);
        let z = m.pref_step(s, b, 0);
        lemma_top_step(m, s, b);
        lemma_grows_trans(a, m, z);
        assert forall|k: int| 0 <= k < order.len() implies (#[trigger] z.student(
            order[k],
        ).assignment(b)) is Some by {
            if k < front.len() {
                assert(front[k] == order[k]);
                assert(m.student(front[k]).assignment(b) is Some);
                assert(m.student_grows(z, order[k]));
            }
        }
    }
}

/// Where everyone is assigned for the block already, the turns of a
/// preference round change nothing.
proof fn lemma_idle_fold(a: AppView, order: Seq<StudentId>, b: Block, r: int)
    requires
        all_assigned(a, b),
        order_in_range(a, order),
    ensures
        a.pref_fold(order, b, r) == a,
    decreases order.len(),
{
    if order.len() > 0 {
        let front = order.drop_last();
        assert(order_in_range(a, front)) by {
            assert forall|k: int| 0 <= k < front.len() implies #[trigger] front[k]
                < a.students.len() by {
                assert(front[k] == order[k]);
            }
        }
        lemma_idle_fold(a, front, b, r);
        assert(order[order.len() - 1] == order.last());
        assert(a.student(order.last()).assignment(b) is Some);
    }
}

/// Where everyone is assigned for the block already, the fallback phase
/// changes nothing.
proof fn lemma_idle_fallback(a: AppView, b: Block, n: int)
    requires
        all_assigned(a, b),
        n <= a.students.len() <= usize::MAX,
    ensures
        a.fallback_fold(b, n) == a,
    decreases n,
{
    if n > 0 {
        lemma_idle_fallback(a, b, n - 1);
        assert(a.student((n - 1) as usize).assignment(b) is Some);
    }
}

/// In a harmonious state the round of first wishes assigns everyone, and
/// the later rounds of the block find nothing left to do.
proof fn lemma_top_rounds(a: AppView, b: Block, n: int)
    requires
        harmonious(a),
        n >= 1,
    ensures
        a.pref_rounds(b, n) == a.pref_round(b, 0),
        harmonious(a.pref_round(b, 0)),
        a.grows_to(a.pref_round(b, 0)),
        all_assigned(a.pref_round(b, 0), b),
    decreases n,
{
    let order = a.round_order();
    let z = a.pref_round(b, 0);
    lemma_round_order(a);
    assert(order_in_range(a, order));
    lemma_top_fold(a, order, b);
    assert forall|s: StudentId| s < z.students.len() implies (#[trigger] z.student(s).assignment(
        b,
    )) is Some by {
        assert(order.contains(s));
        let k = choose|k: int| 0 <= k < order.len() && order[k] == s;
        assert(z.student(order[k]).assignment(b) is Some);
    }
    if n == 1 {
        assert(a.pref_rounds(b, 0) == a);
        assert(a.pref_rounds(b, 1) == a.pref_rounds(b, 0).pref_round(b, 0));
    } else {
        lemma_top_rounds(a, b, n - 1);
        lemma_round_order(z);
        assert(order_in_range(z, z.round_order()));
        lemma_idle_fold(z, z.round_order(), b, n - 1);
    }
}

/// A block of a harmonious run ends with everyone assigned for it.
proof fn lemma_top_block(a: AppView, b: Block)
    requires
        harmonious(a),
    ensures
        harmonious(a.assign_block(b)),
        a.grows_to(a.assign_block(b)),
        all_assigned(a.assign_block(b), b),
{
    lemma_top_rounds(a, b, 5);
    let z = a.pref_round(b, 0);
    lemma_idle_fallback(z, b, a.students.len() as int);
}

proof fn lemma_top_blocks(a: AppView, n: int)
    requires
        harmonious(a),
        0 <= n <= 5,
    ensures
        harmonious(a.assign_blocks(n)),
        a.grows_to(a.assign_blocks(n)),
        forall|k: int| 0 <= k < n ==> #[trigger] all_assigned(a.assign_blocks(n), Block::at(k)),
    decreases n,
{
    if n == 0 {
        lemma_grows_refl(a);
    } else {
        lemma_top_blocks(a, n - 1);
        let m = a.assign_blocks(n - 1);
        let z = m.assign_block(Block::at(n - 1));
        lemma_top_block(m, Block::at(n - 1));
        lemma_grows_trans(a, m, z);
        assert forall|k: int| 0 <= k < n implies #[trigger] all_assigned(z, Block::at(k)) by {
            if k < n - 1 {
                assert(all_assigned(m, Block::at(k)));
                assert forall|s: StudentId| s < z.students.len() implies (#[trigger] z.student(
                    s,
                ).assignment(Block::at(k))) is Some by {
                    assert(m.student(s).assignment(Block::at(k)) is Some);
                    assert(m.student_grows(z, s));
                }
            }
        }
    }
}

/// If, in a state as loaded, every student has a first wish for every
/// block, every wish names a program of its block, and no program is the
/// first wish of more students than it admits, then the run gives every
/// student their first wish in every block, and every student ends with
/// score 0.
pub proof fn everyone_gets_their_top_wish(a: AppView, s: StudentId, b: Block)
    requires
        a.fresh(),
        top_wishes_fit(a),
        s < a.students.len(),
    ensures
        a.assign().student(s).assignment(b) == a.student(s).pref(b, 0),
        a.assign().student(s).assignment(b) is Some,
        a.assign().student(s).score() == Some(0int),
{
    let z = a.assign();
    assert(harmonious(a)) by {
        assert forall|p: ProgramId| p < a.programs.len() implies (#[trigger] a.program(
            p,
        )).students.no_duplicates() by {
            assert(a.program(p).students.len() == 0);
        }
    }
    lemma_top_blocks(a, 5);
    assert(a.student_grows(z, s));
    assert(z.student_ok(s));
    assert forall|c: Block| (#[trigger] z.student(s).assignment(c)) is Some && z.student(s).pref(
        c,
        0,
    ) == z.student(s).assignment(c) by {
        lemma_block_index(c);
        assert(all_assigned(z, Block::at(c.index())));
    }
    top_wishes_score_zero(z.student(s));
}

} // verus!
