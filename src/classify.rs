use vstd::prelude::*;
use crate::pattern::Pattern;
use crate::row::{Row, filled_of, glides_onto, lemma_step_within, step, within};

verus! {

/// The default number of steps a classification may take.
pub const MAX_DEPTH: u32 = 100;

/// The configuration `n` steps after `c`.
pub open spec fn evolve(c: Set<int>, n: nat) -> Set<int>
    decreases n,
{
    if n == 0 {
        c
    } else {
        step(evolve(c, (n - 1) as nat))
    }
}

/// Step `n` of the evolution of `c` equals a configuration at least two steps
/// earlier.
pub open spec fn repeats_at(c: Set<int>, n: nat) -> bool {
    exists|j: nat| j + 1 < n && #[trigger] evolve(c, j) == evolve(c, n)
}

/// Step `n` of the evolution of `c` glides onto some earlier configuration.
pub open spec fn glides_at(c: Set<int>, n: nat) -> bool {
    exists|j: nat| j < n && glides_onto(evolve(c, n), #[trigger] evolve(c, j))
}

/// At step `n` the run ends for a reason other than its budget.
pub open spec fn decided_at(c: Set<int>, n: nat) -> bool {
    evolve(c, n) == Set::<int>::empty() || repeats_at(c, n) || glides_at(c, n)
}

/// The outcome of a run that examines steps `n`, `n + 1`, ... and gives up
/// after step `last`. The tests are made in a fixed order: vanishing, exact
/// repetition, gliding, budget.
pub open spec fn run_from(c: Set<int>, n: nat, last: nat) -> Pattern
    decreases last - n,
{
    if evolve(c, n) == Set::<int>::empty() {
        Pattern::Vanishing
    } else if repeats_at(c, n) {
        Pattern::Blinking
    } else if glides_at(c, n) {
        Pattern::Gliding
    } else if n >= last {
        Pattern::Other
    } else {
        run_from(c, n + 1, last)
    }
}

/// The step at which a run that examines steps `n`, `n + 1`, ... stops: the
/// first one that decides, or `last`, whichever comes first.
pub open spec fn run_end(c: Set<int>, n: nat, last: nat) -> nat
    decreases last - n,
{
    if decided_at(c, n) || n >= last {
        n
    } else {
        run_end(c, n + 1, last)
    }
}

/// A run stops no earlier than its first step and no later than its budget.
pub proof fn lemma_run_end_bounded(c: Set<int>, n: nat, last: nat)
    requires
        n <= last,
    ensures
        n <= run_end(c, n, last) <= last,
    decreases last - n,
{
    if !(decided_at(c, n) || n >= last) {
        lemma_run_end_bounded(c, n + 1, last);
    }
}

/// The last step examined under a depth bound: the initial row counts as
/// depth 1, and at least one step is always taken.
pub open spec fn last_step(max_depth: nat) -> nat {
    if max_depth >= 2 {
        (max_depth - 1) as nat
    } else {
        1
    }
}

/// The pattern of a line of text under a depth bound.
pub open spec fn classify(s: Seq<char>, max_depth: nat) -> Pattern {
    run_from(filled_of(s), 1, last_step(max_depth))
}

/// After `n` steps no cell lies more than `n` positions outside the initial span.
pub proof fn lemma_evolve_within(c: Set<int>, lo: int, hi: int, n: nat)
    requires
        within(c, lo, hi),
    ensures
        within(evolve(c, n), lo - n, hi + n),
    decreases n,
{
    if n > 0 {
        lemma_evolve_within(c, lo, hi, (n - 1) as nat);
        lemma_step_within(evolve(c, (n - 1) as nat), lo - (n - 1), hi + (n - 1));
    }
}

impl Row {
    /// Continues a classification whose history holds the configurations of
    /// steps `0 .. current_depth - 1`, `self` being the last of them. Each step
    /// that decides nothing and is within the budget appends its configuration,
    /// so the history ends with the configurations up to the step before the
    /// one at which the run stops.
    pub fn detect_pattern_recursive(
        &self,
        max_depth: u32,
        current_depth: u32,
        previous_rows: &mut Vec<Row>,
    ) -> (r: Pattern)
        requires
            2 <= current_depth <= max_depth as int + 2,
            old(previous_rows).len() == current_depth - 1,
            forall|i: int| 0 <= i < old(previous_rows).len() ==> (#[trigger] old(previous_rows)[i]).wf(),
            forall|i: int|
                0 <= i < old(previous_rows).len() ==> (#[trigger] old(previous_rows)[i])@ == evolve(
                    old(previous_rows)[0]@,
                    i as nat,
                ),
            within(
                old(previous_rows)[0]@,
                i32::MIN as int + 1 + max_depth,
                i32::MAX as int - 1 - max_depth,
            ),
            self.wf(),
            self@ == old(previous_rows)[current_depth - 2]@,
        ensures
            r == run_from(old(previous_rows)[0]@, (current_depth - 1) as nat, last_step(max_depth as nat)),
            final(previous_rows).len() == run_end(
                old(previous_rows)[0]@,
                (current_depth - 1) as nat,
                last_step(max_depth as nat),
            ),
            final(previous_rows).len() >= old(previous_rows).len(),
            final(previous_rows)@.subrange(0, old(previous_rows).len() as int) == old(previous_rows)@,
            forall|i: int| 0 <= i < final(previous_rows).len() ==> (#[trigger] final(previous_rows)[i])@
                == evolve(old(previous_rows)[0]@, i as nat),
        decreases max_depth - current_depth,
    {
        let ghost c = previous_rows[0]@;
        let ghost n: nat = (current_depth - 1) as nat;
        let ghost last = last_step(max_depth as nat);
        proof {
            lemma_evolve_within(
                c,
                i32::MIN as int + 1 + max_depth,
                i32::MAX as int - 1 - max_depth,
                (n - 1) as nat,
            );
        }
        let next = self.next();
        assert(next@ == evolve(c, n));
        if next.is_empty() {
            return Pattern::Vanishing;
        }
        let count = previous_rows.len();
        let mut i: usize = 0;
        while i < count - 1
            invariant
                count == previous_rows.len(),
                count == n,
                n >= 1,
                n == current_depth - 1,
                c == old(previous_rows)[0]@,
                last == last_step(max_depth as nat),
                evolve(c, n) != Set::<int>::empty(),
                *previous_rows == *old(previous_rows),
                next.wf(),
                next@ == evolve(c, n),
                forall|k: int| 0 <= k < count ==> (#[trigger] previous_rows[k]).wf(),
                forall|k: int| 0 <= k < count ==> (#[trigger] previous_rows[k])@ == evolve(c, k as nat),
                i <= count,
                forall|j: nat| j < i ==> #[trigger] evolve(c, j) != evolve(c, n),
            decreases count - i,
        {
            if next.equals(&previous_rows[i]) {
                assert(evolve(c, i as nat) == evolve(c, n));
                assert(repeats_at(c, n));
                assert(run_from(c, n, last) == Pattern::Blinking);
                return Pattern::Blinking;
            }
            i += 1;
        }
        assert(!repeats_at(c, n));
        let mut i: usize = 0;
        while i < count
            invariant
                count == previous_rows.len(),
                count == n,
                n >= 1,
                n == current_depth - 1,
                c == old(previous_rows)[0]@,
                last == last_step(max_depth as nat),
                evolve(c, n) != Set::<int>::empty(),
                *previous_rows == *old(previous_rows),
                next.wf(),
                next@ == evolve(c, n),
                forall|k: int| 0 <= k < count ==> (#[trigger] previous_rows[k]).wf(),
                forall|k: int| 0 <= k < count ==> (#[trigger] previous_rows[k])@ == evolve(c, k as nat),
                i <= count,
                !repeats_at(c, n),
                forall|j: nat| j < i ==> !glides_onto(evolve(c, n), #[trigger] evolve(c, j)),
            decreases count - i,
        {
            if next.is_gliding(&previous_rows[i]) {
                assert(glides_onto(evolve(c, n), evolve(c, i as nat)));
                assert(glides_at(c, n));
                assert(run_from(c, n, last) == Pattern::Gliding);
                return Pattern::Gliding;
            }
            i += 1;
        }
        assert(!glides_at(c, n));
        if current_depth >= max_depth {
            return Pattern::Other;
        }
        previous_rows.push(self.next());
        proof {
            assert(previous_rows[0] == old(previous_rows)[0]);
            assert forall|k: int| 0 <= k < previous_rows.len() implies (#[trigger] previous_rows[k]).wf()
                && previous_rows[k]@ == evolve(previous_rows[0]@, k as nat) by {
                if k < count {
                    assert(previous_rows[k] == old(previous_rows)[k]);
                }
            }
        }
        let r = next.detect_pattern_recursive(max_depth, current_depth + 1, previous_rows);
        proof {
            assert(old(previous_rows)@ =~= final(previous_rows)@.subrange(0, count as int)) by {
                assert forall|k: int| 0 <= k < count implies final(previous_rows)@[k]
                    == old(previous_rows)@[k] by {
                    assert(final(previous_rows)@.subrange(0, count as int + 1)[k] == final(previous_rows)@[k]);
                }
            }
        }
        r
    }

    /// The pattern of a line of text, examined for at most `max_depth` depths
    /// (the initial row being depth 1).
    pub fn detect_pattern(s: &str, max_depth: u32) -> (r: Pattern)
        requires
            s@.len() + max_depth <= i32::MAX,
        ensures
            r == classify(s@, max_depth as nat),
    {
        let mut previous_rows = Vec::new();
        previous_rows.push(Row::from_string(s));
        let row = Row::from_string(s);
        proof {
            assert(within(filled_of(s@), i32::MIN as int + 1 + max_depth, i32::MAX as int - 1 - max_depth));
            assert(previous_rows[0]@ == evolve(previous_rows[0]@, 0));
        }
        row.detect_pattern_recursive(max_depth, 2, &mut previous_rows)
    }
}

} // verus!
