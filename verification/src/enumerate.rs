//! Walking every assignment of one job per member, odometer fashion.
//!
//! An assignment is a sequence of digits, one per member, each below that
//! member's number of jobs (its radix). Assignments are numbered by their
//! rank: the value of the digits read as a mixed-radix numeral whose last
//! digit varies fastest. The enumeration visits them by rank.

use vstd::prelude::*;
use vstd::arithmetic::div_mod::lemma_fundamental_div_mod;
use vstd::arithmetic::div_mod::lemma_fundamental_div_mod_converse;
use vstd::arithmetic::div_mod::lemma_multiply_divide_lt;

verus! {

/// The number of assignments: the product of the radices.
pub open spec fn combinations(radices: Seq<nat>) -> nat
    decreases radices.len(),
{
    if radices.len() == 0 {
        1
    } else {
        combinations(radices.drop_last()) * radices.last()
    }
}

/// An assignment has one digit per radix, each below its radix.
pub open spec fn well_formed(radices: Seq<nat>, assignment: Seq<nat>) -> bool {
    &&& assignment.len() == radices.len()
    &&& forall|i: int| 0 <= i < assignment.len() ==> assignment[i] < radices[i]
}

/// The assignment of `n` digits that are all zero.
pub open spec fn zeros(n: nat) -> Seq<nat> {
    Seq::new(n, |i: int| 0nat)
}

/// The position of an assignment in the enumeration.
pub open spec fn rank(radices: Seq<nat>, assignment: Seq<nat>) -> nat
    decreases radices.len(),
{
    if radices.len() == 0 {
        0
    } else {
        rank(radices.drop_last(), assignment.drop_last()) * radices.last() + assignment.last()
    }
}

/// The assignment at a position of the enumeration.
pub open spec fn assignment_at(radices: Seq<nat>, position: nat) -> Seq<nat>
    decreases radices.len(),
{
    if radices.len() == 0 {
        Seq::empty()
    } else {
        assignment_at(radices.drop_last(), position / radices.last()).push(
            position % radices.last(),
        )
    }
}

/// One odometer step: the last digit goes up by one, and a digit that reaches
/// its radix falls back to zero and carries into the digit before it.
pub open spec fn successor(radices: Seq<nat>, assignment: Seq<nat>) -> Seq<nat>
    decreases radices.len(),
{
    if radices.len() == 0 {
        assignment
    } else if assignment.last() + 1 < radices.last() {
        assignment.drop_last().push(assignment.last() + 1)
    } else {
        successor(radices.drop_last(), assignment.drop_last()).push(0)
    }
}

/// The digits of a vector of machine integers.
pub open spec fn as_nats(digits: Seq<usize>) -> Seq<nat> {
    digits.map_values(|d: usize| d as nat)
}

/// A well-formed assignment stays well-formed without its last digit.
proof fn lemma_well_formed_prefix(radices: Seq<nat>, assignment: Seq<nat>)
    requires
        well_formed(radices, assignment),
        radices.len() > 0,
    ensures
        well_formed(radices.drop_last(), assignment.drop_last()),
        assignment.last() < radices.last(),
{
}

/// There are no assignments exactly when some member has nothing to offer.
pub proof fn lemma_combinations_zero(radices: Seq<nat>)
    ensures
        combinations(radices) == 0 <==> exists|i: int| 0 <= i < radices.len() && radices[i] == 0,
    decreases radices.len(),
{
    if radices.len() > 0 {
        let front = radices.drop_last();
        lemma_combinations_zero(front);
        let c = combinations(front);
        let m = radices.last();
        assert(c * m == 0 <==> c == 0 || m == 0) by (nonlinear_arith);
        if combinations(radices) == 0 {
            if m == 0 {
                assert(radices[radices.len() - 1] == 0);
            } else {
                let i = choose|i: int| 0 <= i < front.len() && front[i] == 0;
                assert(radices[i] == 0);
            }
        }
        if exists|i: int| 0 <= i < radices.len() && radices[i] == 0 {
            let i = choose|i: int| 0 <= i < radices.len() && radices[i] == 0;
            if i < radices.len() - 1 {
                assert(front[i] == 0);
            }
        }
    }
}

/// Every well-formed assignment has a rank below the number of assignments.
pub proof fn lemma_rank_in_range(radices: Seq<nat>, assignment: Seq<nat>)
    requires
        well_formed(radices, assignment),
    ensures
        rank(radices, assignment) < combinations(radices),
    decreases radices.len(),
{
    if radices.len() > 0 {
        lemma_well_formed_prefix(radices, assignment);
        lemma_rank_in_range(radices.drop_last(), assignment.drop_last());
        let r = rank(radices.drop_last(), assignment.drop_last());
        let c = combinations(radices.drop_last());
        let m = radices.last();
        let d = assignment.last();
        assert(r * m + d < c * m) by (nonlinear_arith)
            requires
                r < c,
                d < m,
        ;
    }
}

/// Every position below the number of assignments holds a well-formed
/// assignment, and that assignment's rank is the position.
pub proof fn lemma_assignment_at_position(radices: Seq<nat>, position: nat)
    requires
        position < combinations(radices),
    ensures
        well_formed(radices, assignment_at(radices, position)),
        rank(radices, assignment_at(radices, position)) == position,
    decreases radices.len(),
{
    if radices.len() > 0 {
        let front = radices.drop_last();
        let c = combinations(front);
        let m = radices.last();
        assert(m > 0) by (nonlinear_arith)
            requires
                position < c * m,
        ;
        let q = position / m;
        let d = position % m;
        assert(c * m == m * c) by (nonlinear_arith);
        lemma_multiply_divide_lt(position as int, m as int, c as int);
        lemma_fundamental_div_mod(position as int, m as int);
        assert(m * q == q * m) by (nonlinear_arith);
        lemma_assignment_at_position(front, q);
        let head = assignment_at(front, q);
        assert(head.push(d).drop_last() == head);
    }
}

/// A well-formed assignment stands at the position that is its rank.
pub proof fn lemma_rank_position(radices: Seq<nat>, assignment: Seq<nat>)
    requires
        well_formed(radices, assignment),
    ensures
        assignment_at(radices, rank(radices, assignment)) == assignment,
    decreases radices.len(),
{
    if radices.len() > 0 {
        lemma_well_formed_prefix(radices, assignment);
        let front = radices.drop_last();
        let m = radices.last();
        let d = assignment.last();
        let r = rank(front, assignment.drop_last());
        lemma_fundamental_div_mod_converse((r * m + d) as int, m as int, r as int, d as int);
        lemma_rank_position(front, assignment.drop_last());
        assert(assignment.drop_last().push(d) == assignment);
    } else {
        assert(assignment == Seq::<nat>::empty());
    }
}

/// Where there is any assignment at all, the first one is all zeros.
pub proof fn lemma_first_is_zeros(radices: Seq<nat>)
    requires
        combinations(radices) > 0,
    ensures
        assignment_at(radices, 0) == zeros(radices.len()),
        rank(radices, zeros(radices.len())) == 0,
    decreases radices.len(),
{
    if radices.len() > 0 {
        let front = radices.drop_last();
        let c = combinations(front);
        let m = radices.last();
        assert(c > 0 && m > 0) by (nonlinear_arith)
            requires
                c * m > 0,
        ;
        lemma_first_is_zeros(front);
        lemma_fundamental_div_mod_converse(0, m as int, 0, 0);
        assert(zeros(front.len()).push(0) == zeros(radices.len()));
        assert(zeros(radices.len()).drop_last() == zeros(front.len()));
    } else {
        assert(zeros(0) == Seq::<nat>::empty());
    }
}

/// A step leads from each assignment to the one at the next position, and
/// from the last assignment back to the first.
pub proof fn lemma_successor_rank(radices: Seq<nat>, assignment: Seq<nat>)
    requires
        well_formed(radices, assignment),
    ensures
        well_formed(radices, successor(radices, assignment)),
        rank(radices, assignment) + 1 < combinations(radices) ==> rank(
            radices,
            successor(radices, assignment),
        ) == rank(radices, assignment) + 1,
        rank(radices, assignment) + 1 >= combinations(radices) ==> rank(
            radices,
            successor(radices, assignment),
        ) == 0,
    decreases radices.len(),
{
    lemma_rank_in_range(radices, assignment);
    if radices.len() > 0 {
        lemma_well_formed_prefix(radices, assignment);
        let front = radices.drop_last();
        let head = assignment.drop_last();
        let m = radices.last();
        let d = assignment.last();
        let r = rank(front, head);
        let c = combinations(front);
        lemma_rank_in_range(front, head);
        if d + 1 < m {
            let next = head.push(d + 1);
            assert(next.drop_last() == head);
            assert(well_formed(radices, next));
            lemma_rank_in_range(radices, next);
        } else {
            lemma_successor_rank(front, head);
            let carried = successor(front, head);
            let next = carried.push(0);
            assert(next.drop_last() == carried);
            assert(well_formed(radices, next));
            let r2 = rank(front, carried);
            if r + 1 < c {
                assert(r2 * m + 0 == r * m + d + 1) by (nonlinear_arith)
                    requires
                        r2 == r + 1,
                        d + 1 == m,
                ;
                lemma_rank_in_range(radices, next);
            } else {
                assert(r2 * m == 0) by (nonlinear_arith)
                    requires
                        r2 == 0,
                ;
                assert(r * m + d + 1 == c * m) by (nonlinear_arith)
                    requires
                        r + 1 == c,
                        d + 1 == m,
                ;
            }
        }
    }
}

/// Everything the enumeration hands out, in order.
pub open spec fn enumeration(radices: Seq<nat>) -> Seq<Seq<nat>> {
    Seq::new(combinations(radices), |position: int| assignment_at(radices, position as nat))
}

/// The enumeration hands out as many assignments as the product of the
/// members' job counts. Each is well-formed, every well-formed assignment
/// stands at the position that is its rank and at no other, and the all-zero
/// assignment comes first and never again.
pub proof fn lemma_enumeration_exact(radices: Seq<nat>)
    ensures
        enumeration(radices).len() == combinations(radices),
        forall|k: int|
            0 <= k < enumeration(radices).len() ==> well_formed(
                radices,
                #[trigger] enumeration(radices)[k],
            ),
        forall|assignment: Seq<nat>| #[trigger]
            well_formed(radices, assignment) ==> rank(radices, assignment) < enumeration(
                radices,
            ).len() && enumeration(radices)[rank(radices, assignment) as int] == assignment,
        forall|j: int, k: int|
            0 <= j < k < enumeration(radices).len() ==> #[trigger] enumeration(radices)[j]
                != #[trigger] enumeration(radices)[k],
        enumeration(radices).len() > 0 ==> enumeration(radices)[0] == zeros(radices.len()),
        forall|k: int|
            0 < k < enumeration(radices).len() ==> #[trigger] enumeration(radices)[k] != zeros(
                radices.len(),
            ),
{
    let all = enumeration(radices);
    assert forall|k: int| 0 <= k < all.len() implies well_formed(radices, #[trigger] all[k])
        && rank(radices, all[k]) == k by {
        lemma_assignment_at_position(radices, k as nat);
    }
    assert forall|assignment: Seq<nat>| #[trigger]
        well_formed(radices, assignment) implies rank(radices, assignment) < all.len()
        && all[rank(radices, assignment) as int] == assignment by {
        lemma_rank_in_range(radices, assignment);
        lemma_rank_position(radices, assignment);
    }
    if all.len() > 0 {
        lemma_first_is_zeros(radices);
    }
}

/// Where a digit can still go up and every digit after it is at its highest,
/// a step raises that digit and clears those after it.
proof fn lemma_successor_carry(radices: Seq<nat>, assignment: Seq<nat>, pivot: int)
    requires
        well_formed(radices, assignment),
        0 <= pivot < radices.len(),
        assignment[pivot] + 1 < radices[pivot],
        forall|j: int| pivot < j < radices.len() ==> #[trigger] assignment[j] + 1 >= radices[j],
    ensures
        successor(radices, assignment) == Seq::new(
            radices.len(),
            |j: int|
                if j < pivot {
                    assignment[j]
                } else if j == pivot {
                    assignment[pivot] + 1
                } else {
                    0nat
                },
        ),
    decreases radices.len(),
{
    let target = Seq::new(
        radices.len(),
        |j: int|
            if j < pivot {
                assignment[j]
            } else if j == pivot {
                assignment[pivot] + 1
            } else {
                0nat
            },
    );
    if pivot == radices.len() - 1 {
        assert(assignment.drop_last().push(assignment.last() + 1) =~= target);
    } else {
        lemma_well_formed_prefix(radices, assignment);
        lemma_successor_carry(radices.drop_last(), assignment.drop_last(), pivot);
        assert(successor(radices.drop_last(), assignment.drop_last()).push(0) =~= target);
    }
}

/// Where every digit is at its highest, a step clears them all.
proof fn lemma_successor_wrap(radices: Seq<nat>, assignment: Seq<nat>)
    requires
        well_formed(radices, assignment),
        forall|j: int| 0 <= j < radices.len() ==> #[trigger] assignment[j] + 1 >= radices[j],
    ensures
        successor(radices, assignment) == zeros(radices.len()),
    decreases radices.len(),
{
    if radices.len() > 0 {
        lemma_well_formed_prefix(radices, assignment);
        lemma_successor_wrap(radices.drop_last(), assignment.drop_last());
        assert(zeros((radices.len() - 1) as nat).push(0) =~= zeros(radices.len()));
    } else {
        assert(assignment =~= zeros(0));
    }
}

/// A step comes back to the all-zero assignment exactly from the last one.
proof fn lemma_wrap_is_last(radices: Seq<nat>, assignment: Seq<nat>)
    requires
        well_formed(radices, assignment),
    ensures
        successor(radices, assignment) == zeros(radices.len()) <==> rank(radices, assignment) + 1
            == combinations(radices),
{
    let next = successor(radices, assignment);
    lemma_rank_in_range(radices, assignment);
    lemma_successor_rank(radices, assignment);
    lemma_first_is_zeros(radices);
    lemma_rank_position(radices, next);
}

/// Whether every digit of an assignment is zero.
pub fn is_all_zero(combination: &Vec<usize>) -> (all_zero: bool)
    ensures
        all_zero <==> as_nats(combination@) == zeros(combination@.len()),
{
    let mut i: usize = 0;
    while i < combination.len()
        invariant
            i <= combination@.len(),
            forall|j: int| 0 <= j < i ==> combination@[j] == 0,
        decreases combination@.len() - i,
    {
        if combination[i] > 0 {
            assert(as_nats(combination@)[i as int] != zeros(combination@.len())[i as int]);
            return false;
        }
        i += 1;
    }
    assert(as_nats(combination@) =~= zeros(combination@.len()));
    true
}

/// Moves an assignment one odometer step on and tells whether that brought it
/// back to the start, which happens exactly after the last assignment.
pub fn advance(counts: &Vec<usize>, combination: &mut Vec<usize>) -> (wrapped: bool)
    requires
        well_formed(as_nats(counts@), as_nats(old(combination)@)),
    ensures
        as_nats(final(combination)@) == successor(as_nats(counts@), as_nats(old(combination)@)),
        well_formed(as_nats(counts@), as_nats(final(combination)@)),
        wrapped <==> as_nats(final(combination)@) == zeros(counts@.len()),
        wrapped <==> rank(as_nats(counts@), as_nats(old(combination)@)) + 1 == combinations(
            as_nats(counts@),
        ),
{
    let ghost radices = as_nats(counts@);
    let ghost start = as_nats(combination@);
    let n: usize = combination.len();
    let mut i: usize = n;
    let mut carry: bool = true;
    while i > 0 && carry
        invariant
            radices == as_nats(counts@),
            well_formed(radices, start),
            n == counts@.len(),
            combination@.len() == n,
            i <= n,
            forall|j: int| 0 <= j < i ==> #[trigger] combination@[j] == start[j],
            forall|j: int| i < j < n ==> #[trigger] start[j] + 1 >= radices[j],
            forall|j: int| i < j < n ==> #[trigger] combination@[j] == 0,
            carry && i < n ==> start[i as int] + 1 >= radices[i as int] && combination@[i as int]
                == 0,
            !carry ==> i < n && start[i as int] + 1 < radices[i as int] && combination@[i as int]
                == start[i as int] + 1,
        decreases i,
    {
        i -= 1;
        assert(start[i as int] < radices[i as int]);
        assert(radices[i as int] == counts@[i as int]);
        let next: usize = combination[i] + 1;
        if next >= counts[i] {
            combination.set(i, 0);
        } else {
            combination.set(i, next);
            carry = false;
        }
    }
    proof {
        if carry {
            lemma_successor_wrap(radices, start);
            assert(as_nats(combination@) =~= zeros(n as nat));
        } else {
            lemma_successor_carry(radices, start, i as int);
            assert(as_nats(combination@) =~= successor(radices, start));
        }
        lemma_successor_rank(radices, start);
        lemma_wrap_is_last(radices, start);
    }
    is_all_zero(combination)
}

/// The enumeration of a party's assignments, one at a time.
///
/// It starts at the all-zero assignment, hands the assignments out by rank
/// and ends after the last one. Where a member has no job at all there is
/// nothing to hand out.
pub struct Enumerator {
    counts: Vec<usize>,
    current: Vec<usize>,
    exhausted: bool,
    position: Ghost<nat>,
}

impl Enumerator {
    /// The number of jobs of each member.
    pub closed spec fn radices(&self) -> Seq<nat> {
        as_nats(self.counts@)
    }

    /// How many assignments have been handed out.
    pub closed spec fn position(&self) -> nat {
        self.position@
    }

    /// The state is consistent: the stored assignment is the one at the
    /// current position, and the end is flagged exactly when it is reached.
    pub closed spec fn wf(&self) -> bool {
        &&& self.current@.len() == self.counts@.len()
        &&& self.position@ <= combinations(self.radices())
        &&& self.exhausted <==> self.position@ == combinations(self.radices())
        &&& !self.exhausted ==> as_nats(self.current@) == assignment_at(
            self.radices(),
            self.position@,
        )
    }

    /// An enumeration over the given numbers of jobs, at its start.
    pub fn new(counts: Vec<usize>) -> (enumerator: Enumerator)
        ensures
            enumerator.wf(),
            enumerator.radices() == as_nats(counts@),
            enumerator.position() == 0,
    {
        let mut enumerator = Enumerator {
            counts,
            current: Vec::new(),
            exhausted: true,
            position: Ghost(0),
        };
        enumerator.fill();
        enumerator
    }

    /// Starts the enumeration over.
    pub fn reset(&mut self)
        ensures
            final(self).wf(),
            final(self).radices() == old(self).radices(),
            final(self).position() == 0,
    {
        self.fill();
    }

    fn fill(&mut self)
        ensures
            final(self).wf(),
            final(self).counts == old(self).counts,
            final(self).position@ == 0,
    {
        let n: usize = self.counts.len();
        let mut current: Vec<usize> = Vec::new();
        let mut empty: bool = false;
        let mut i: usize = 0;
        while i < n
            invariant
                n == self.counts@.len(),
                i <= n,
                current@.len() == i,
                forall|j: int| 0 <= j < i ==> current@[j] == 0,
                empty <==> exists|j: int| 0 <= j < i && self.counts@[j] == 0,
                self.counts == old(self).counts,
            decreases n - i,
        {
            if self.counts[i] == 0 {
                empty = true;
            }
            current.push(0);
            i += 1;
        }
        proof {
            let radices = as_nats(self.counts@);
            lemma_combinations_zero(radices);
            if empty {
                let j = choose|j: int| 0 <= j < n && self.counts@[j] == 0;
                assert(radices[j] == 0);
            } else {
                if combinations(radices) == 0 {
                    let j = choose|j: int| 0 <= j < radices.len() && radices[j] == 0;
                    assert(self.counts@[j] == 0);
                }
                lemma_first_is_zeros(radices);
                assert(as_nats(current@) =~= zeros(n as nat));
            }
        }
        self.current = current;
        self.exhausted = empty;
        self.position = Ghost(0);
    }

    /// Whether every assignment has been handed out.
    pub fn is_done(&self) -> (done: bool)
        requires
            self.wf(),
        ensures
            done <==> self.position() == combinations(self.radices()),
    {
        self.exhausted
    }

    /// Hands out the assignment at the current position and moves on, or
    /// nothing once all have been handed out.
    pub fn next(&mut self) -> (item: Option<Vec<usize>>)
        requires
            old(self).wf(),
        ensures
            final(self).wf(),
            final(self).radices() == old(self).radices(),
            old(self).position() <= combinations(old(self).radices()),
            old(self).position() < combinations(old(self).radices()) ==> {
                &&& item matches Some(assignment)
                &&& as_nats(assignment@) == assignment_at(old(self).radices(), old(self).position())
                &&& well_formed(old(self).radices(), as_nats(assignment@))
                &&& final(self).position() == old(self).position() + 1
            },
            old(self).position() == combinations(old(self).radices()) ==> {
                &&& item is None
                &&& final(self).position() == old(self).position()
            },
    {
        if self.exhausted {
            return None;
        }
        let assignment = self.current.clone();
        assert(assignment@ == self.current@);
        proof {
            lemma_assignment_at_position(self.radices(), self.position@);
        }
        let wrapped = advance(&self.counts, &mut self.current);
        proof {
            lemma_successor_rank(old(self).radices(), as_nats(assignment@));
            lemma_rank_position(old(self).radices(), as_nats(self.current@));
        }
        self.exhausted = wrapped;
        self.position = Ghost((self.position@ + 1) as nat);
        Some(assignment)
    }
}

} // verus!
