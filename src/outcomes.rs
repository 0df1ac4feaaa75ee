use vstd::prelude::*;
use vstd::relations::{is_least as is_least_by, total_ordering};
use vstd::set_lib::{lemma_int_range, lemma_map_size, set_int_range};
use crate::classify::{classify, decided_at, evolve, glides_at, last_step, lemma_evolve_within, repeats_at, run_from};
use crate::pattern::Pattern;
use crate::row::{filled_of, glides_onto, is_least, least, lemma_least, step, within};

verus! {

broadcast use vstd::set_lib::group_set_lib_default;

/// The set `a` with every position moved by `k`.
pub open spec fn shifted(a: Set<int>, k: int) -> Set<int> {
    a.map(|x: int| x + k)
}

/// While no step decides, a run examines the next step.
proof fn lemma_run_reaches(c: Set<int>, m: nat, n: nat, last: nat)
    requires
        1 <= m <= n <= last,
        forall|k: nat| m <= k < n ==> !#[trigger] decided_at(c, k),
    ensures
        run_from(c, m, last) == run_from(c, n, last),
    decreases n - m,
{
    if m < n {
        assert(!decided_at(c, m));
        lemma_run_reaches(c, m + 1, n, last);
    }
}

proof fn lemma_step_of_empty()
    ensures
        step(Set::<int>::empty()) == Set::<int>::empty(),
{
    assert(step(Set::<int>::empty()) =~= Set::<int>::empty());
}

/// Every configuration reached from a line is a finite set.
proof fn lemma_evolve_finite(s: Seq<char>, n: nat)
    ensures
        evolve(filled_of(s), n).finite(),
{
    let c = filled_of(s);
    assert(within(c, 0, s.len() as int));
    lemma_evolve_within(c, 0, s.len() as int, n);
    let bound = set_int_range(-n, (s.len() + n + 1) as int);
    lemma_int_range(-n, (s.len() + n + 1) as int);
    assert(evolve(c, n).subset_of(bound));
    vstd::set_lib::lemma_set_subset_finite(bound, evolve(c, n));
}

/// A finite non-empty set of integers has a least element.
proof fn lemma_least_exists(s: Set<int>)
    requires
        s.finite(),
        s.len() > 0,
    ensures
        is_least(s, least(s)),
{
    let r = |a: int, b: int| a <= b;
    assert(total_ordering(r));
    let m = s.find_unique_minimal(r);
    s.find_unique_minimal_ensures(r);
    s.lemma_minimal_equivalent_least(r, m);
    assert(is_least_by(r, m, s));
    assert forall|x: int| s.contains(x) implies m <= x by {
        assert(r(m, x));
    }
    lemma_least(s, m);
}

/// A line whose first step leaves no cell filled is vanishing, whatever the
/// depth bound.
pub proof fn lemma_vanishing(s: Seq<char>, max_depth: nat)
    requires
        step(filled_of(s)) == Set::<int>::empty(),
    ensures
        classify(s, max_depth) == Pattern::Vanishing,
{
    assert(evolve(filled_of(s), 1) == step(evolve(filled_of(s), 0)));
}

/// The empty line is vanishing, whatever the depth bound.
pub proof fn lemma_empty_line_vanishes(max_depth: nat)
    ensures
        classify(Seq::<char>::empty(), max_depth) == Pattern::Vanishing,
{
    assert(filled_of(Seq::<char>::empty()) =~= Set::<int>::empty());
    lemma_step_of_empty();
    lemma_vanishing(Seq::<char>::empty(), max_depth);
}

/// No configuration glides onto itself: a repetition in place is never gliding.
pub proof fn lemma_no_glide_in_place(a: Set<int>)
    ensures
        !glides_onto(a, a),
{
}

/// A line whose evolution, at a step within the budget where nothing was
/// decided before, equals a configuration at least two steps earlier, is
/// blinking.
pub proof fn lemma_repeat_is_blinking(s: Seq<char>, max_depth: nat, n: nat, j: nat)
    requires
        1 <= n <= last_step(max_depth),
        forall|k: nat| 1 <= k < n ==> !#[trigger] decided_at(filled_of(s), k),
        j + 1 < n,
        evolve(filled_of(s), j) == evolve(filled_of(s), n),
    ensures
        classify(s, max_depth) == Pattern::Blinking,
{
    let c = filled_of(s);
    lemma_run_reaches(c, 1, n, last_step(max_depth));
    if evolve(c, n) == Set::<int>::empty() {
        if j >= 1 {
            assert(decided_at(c, j));
        } else {
            lemma_step_of_empty();
            assert(evolve(c, 1) == step(evolve(c, 0)));
            assert(decided_at(c, 1));
        }
    }
    assert(repeats_at(c, n));
}

/// A line whose evolution, at a step within the budget where nothing was
/// decided before, is a non-empty configuration that moves an earlier one by
/// a non-zero offset, and repeats none at least two steps earlier, is gliding.
pub proof fn lemma_shift_is_gliding(s: Seq<char>, max_depth: nat, n: nat, j: nat, k: int)
    requires
        1 <= n <= last_step(max_depth),
        forall|i: nat| 1 <= i < n ==> !#[trigger] decided_at(filled_of(s), i),
        j < n,
        k != 0,
        evolve(filled_of(s), n) == shifted(evolve(filled_of(s), j), k),
        evolve(filled_of(s), n) != Set::<int>::empty(),
        !repeats_at(filled_of(s), n),
    ensures
        classify(s, max_depth) == Pattern::Gliding,
{
    let c = filled_of(s);
    let a = evolve(c, n);
    let b = evolve(c, j);
    lemma_evolve_finite(s, j);
    let f = |x: int| x + k;
    assert(vstd::relations::injective_on(f, b));
    lemma_map_size(b, a, f);
    assert(exists|x: int| a.contains(x)) by {
        if !(exists|x: int| a.contains(x)) {
            assert(a =~= Set::<int>::empty());
        }
    }
    let p = choose|x: int| a.contains(x);
    assert(b.len() > 0) by {
        assert(b.contains(p - k));
    }
    lemma_least_exists(b);
    let m = least(b);
    assert(is_least(a, m + k)) by {
        assert forall|x: int| a.contains(x) implies m + k <= x by {
            assert(b.contains(x - k));
        }
    }
    lemma_least(a, m + k);
    assert(glides_onto(a, b)) by {
        assert forall|x: int| #[trigger] a.contains(x) implies b.contains(x + (m - (m + k))) by {
            assert(b.contains(x - k));
        }
    }
    assert(glides_at(c, n));
    lemma_run_reaches(c, 1, n, last_step(max_depth));
}

/// A line whose evolution decides nothing at any step within the budget is
/// classified as other.
pub proof fn lemma_undecided_is_other(s: Seq<char>, max_depth: nat)
    requires
        forall|k: nat| 1 <= k <= last_step(max_depth) ==> !#[trigger] decided_at(filled_of(s), k),
    ensures
        classify(s, max_depth) == Pattern::Other,
{
    let c = filled_of(s);
    let last = last_step(max_depth);
    lemma_run_reaches(c, 1, last, last);
    assert(!decided_at(c, last));
}

} // verus!
