use vstd::prelude::*;
use vstd::set_lib::lemma_subset_equality;

verus! {

broadcast use vstd::seq_lib::group_seq_properties;

/// The character that marks a filled cell in a row's text form.
pub const FILLED: char = '#';

/// The positions filled by a line of text: the indices of its marker characters.
pub open spec fn filled_of(s: Seq<char>) -> Set<int> {
    Set::new(|i: int| 0 <= i < s.len() && s[i] == FILLED)
}

/// 1 where `p` is filled in `c`, else 0.
pub open spec fn filled_bit(c: Set<int>, p: int) -> int {
    if c.contains(p) {
        1
    } else {
        0
    }
}

/// How many of the four cells at distance 1 or 2 from `p` are filled.
pub open spec fn neighbor_count(c: Set<int>, p: int) -> int {
    filled_bit(c, p - 2) + filled_bit(c, p - 1) + filled_bit(c, p + 1) + filled_bit(c, p + 2)
}

/// An empty cell becomes filled when it has two or three neighbours.
pub open spec fn is_born(c: Set<int>, p: int) -> bool {
    neighbor_count(c, p) == 2 || neighbor_count(c, p) == 3
}

/// A filled cell stays filled when it has two or four neighbours.
pub open spec fn is_kept(c: Set<int>, p: int) -> bool {
    neighbor_count(c, p) == 2 || neighbor_count(c, p) == 4
}

/// Whether `p` is filled one step after `c`.
pub open spec fn filled_after(c: Set<int>, p: int) -> bool {
    if c.contains(p) {
        is_kept(c, p)
    } else {
        is_born(c, p)
    }
}

/// The configuration one step after `c`.
pub open spec fn step(c: Set<int>) -> Set<int> {
    Set::new(|p: int| filled_after(c, p))
}

/// Every filled position of `c` lies in `[lo, hi]`.
pub open spec fn within(c: Set<int>, lo: int, hi: int) -> bool {
    forall|p: int| c.contains(p) ==> lo <= p <= hi
}

/// Every position of `a`, moved by `k`, is filled in `b`.
pub open spec fn covers_shifted(a: Set<int>, b: Set<int>, k: int) -> bool {
    forall|x: int| #[trigger] a.contains(x) ==> b.contains(x + k)
}

/// `m` is the smallest element of `s`.
pub open spec fn is_least(s: Set<int>, m: int) -> bool {
    s.contains(m) && forall|x: int| s.contains(x) ==> m <= x
}

/// The smallest element of a non-empty set.
pub open spec fn least(s: Set<int>) -> int {
    choose|m: int| is_least(s, m)
}

/// `a` glides onto `b`: as many cells, a different leftmost cell, and `a`
/// moved so that the leftmost cells meet lies inside `b`.
pub open spec fn glides_onto(a: Set<int>, b: Set<int>) -> bool {
    &&& a.len() > 0
    &&& a.len() == b.len()
    &&& least(a) != least(b)
    &&& covers_shifted(a, b, least(b) - least(a))
}

/// One step moves no cell more than one position beyond the current span.
pub proof fn lemma_step_within(c: Set<int>, lo: int, hi: int)
    requires
        within(c, lo, hi),
    ensures
        within(step(c), lo - 1, hi + 1),
{
    assert forall|p: int| step(c).contains(p) implies lo - 1 <= p <= hi + 1 by {
        assert(filled_after(c, p));
        if p < lo - 1 {
            assert(!c.contains(p) && !c.contains(p - 1) && !c.contains(p - 2) && !c.contains(p + 1));
        }
        if p > hi + 1 {
            assert(!c.contains(p) && !c.contains(p + 1) && !c.contains(p + 2) && !c.contains(p - 1));
        }
    }
}

/// The least element, where one is known, is the one `least` picks.
pub proof fn lemma_least(s: Set<int>, m: int)
    requires
        is_least(s, m),
    ensures
        least(s) == m,
{
    let l = least(s);
    assert(is_least(s, l));
    assert(l <= m && m <= l);
}

/// One configuration of the automaton: the filled positions, kept in
/// increasing order, with the smallest and largest of them.
pub struct Row {
    cells: Vec<i32>,
    min: i32,
    max: i32,
}

impl View for Row {
    type V = Set<int>;

    closed spec fn view(&self) -> Set<int> {
        self.positions().to_set()
    }
}

impl Row {
    closed spec fn positions(&self) -> Seq<int> {
        self.cells@.map_values(|v: i32| v as int)
    }

    /// The cells are strictly increasing and `min`/`max` are the first and last of them.
    pub closed spec fn wf(&self) -> bool {
        &&& forall|i: int, j: int| 0 <= i < j < self.cells.len() ==> self.cells[i] < self.cells[j]
        &&& self.cells.len() == 0 ==> self.min == 0 && self.max == 0
        &&& self.cells.len() > 0 ==> self.min == self.cells[0] && self.max == self.cells@.last()
    }

    proof fn lemma_view_contains(&self, p: int)
        ensures
            self@.contains(p) <==> exists|j: int|
                0 <= j < self.cells.len() && #[trigger] self.cells[j] as int == p,
    {
        if self@.contains(p) {
            let j = choose|j: int| 0 <= j < self.positions().len() && self.positions()[j] == p;
            assert(self.cells[j] as int == p);
        }
        if exists|j: int| 0 <= j < self.cells.len() && #[trigger] self.cells[j] as int == p {
            let j = choose|j: int| 0 <= j < self.cells.len() && #[trigger] self.cells[j] as int == p;
            assert(self.positions()[j] == p);
        }
    }

    proof fn lemma_view(&self)
        requires
            self.wf(),
        ensures
            self@.finite(),
            self@.len() == self.cells.len(),
            self.cells.len() == 0 <==> self@ == Set::<int>::empty(),
            self.cells.len() > 0 ==> is_least(self@, self.min as int),
            self.cells.len() > 0 ==> self@.contains(self.max as int),
            within(self@, self.min as int, self.max as int),
            within(self@, i32::MIN as int, i32::MAX as int),
    {
        assert(self.positions().no_duplicates()) by {
            assert forall|i: int, j: int|
                0 <= i < self.positions().len() && 0 <= j < self.positions().len() && i != j
                implies self.positions()[i] != self.positions()[j] by {
                if i < j {
                    assert(self.cells[i] < self.cells[j]);
                } else {
                    assert(self.cells[j] < self.cells[i]);
                }
            }
        }
        self.positions().unique_seq_to_set();
        assert forall|p: int| self@.contains(p) implies self.min as int <= p <= self.max as int
            && i32::MIN as int <= p <= i32::MAX as int by {
            self.lemma_view_contains(p);
            let j = choose|j: int| 0 <= j < self.cells.len() && #[trigger] self.cells[j] as int == p;
            if 0 < j {
                assert(self.cells[0] < self.cells[j]);
            }
            if j < self.cells.len() - 1 {
                assert(self.cells[j] < self.cells[self.cells.len() - 1]);
            }
        }
        if self.cells.len() == 0 {
            assert(self@ =~= Set::<int>::empty());
        } else {
            self.lemma_view_contains(self.min as int);
            assert(self.cells[0] as int == self.min as int);
            assert(self@.contains(self.cells[0] as int));
            self.lemma_view_contains(self.max as int);
            assert(self.cells[self.cells.len() - 1] as int == self.max as int);
        }
    }

    /// A well-formed row fills finitely many positions, all within `i32`.
    pub proof fn lemma_view_finite(&self)
        requires
            self.wf(),
        ensures
            self@.finite(),
            within(self@, i32::MIN as int, i32::MAX as int),
    {
        self.lemma_view();
    }

    /// An empty row.
    pub fn new() -> (r: Row)
        ensures
            r.wf(),
            r@ == Set::<int>::empty(),
    {
        let r = Row { cells: Vec::new(), min: 0, max: 0 };
        proof {
            r.lemma_view();
        }
        r
    }

    /// The number of stored cells before the first one that is not below `v`.
    fn lower_bound(&self, v: i32) -> (i: usize)
        requires
            self.wf(),
        ensures
            i <= self.cells.len(),
            forall|j: int| 0 <= j < i ==> self.cells[j] < v,
            forall|j: int| i <= j < self.cells.len() ==> self.cells[j] >= v,
    {
        let mut lo: usize = 0;
        let mut hi: usize = self.cells.len();
        while lo < hi
            invariant
                self.wf(),
                lo <= hi <= self.cells.len(),
                forall|j: int| 0 <= j < lo ==> self.cells[j] < v,
                forall|j: int| hi <= j < self.cells.len() ==> self.cells[j] >= v,
            decreases hi - lo,
        {
            let mid = lo + (hi - lo) / 2;
            if self.cells[mid] < v {
                lo = mid + 1;
            } else {
                hi = mid;
            }
        }
        lo
    }

    /// Whether position `v` is filled.
    pub fn contains(&self, v: i32) -> (r: bool)
        requires
            self.wf(),
        ensures
            r == self@.contains(v as int),
    {
        let i = self.lower_bound(v);
        proof {
            self.lemma_view_contains(v as int);
            if !(i < self.cells.len() && self.cells[i as int] == v) {
                assert forall|j: int| 0 <= j < self.cells.len() implies self.cells[j] != v by {
                    if i < j {
                        assert(self.cells[i as int] < self.cells[j]);
                    }
                }
            }
        }
        i < self.cells.len() && self.cells[i] == v
    }

    /// Whether position `p`, given at a wider width, is filled.
    fn has(&self, p: i64) -> (r: bool)
        requires
            self.wf(),
        ensures
            r == self@.contains(p as int),
    {
        proof {
            self.lemma_view();
        }
        if p < i32::MIN as i64 || p > i32::MAX as i64 {
            false
        } else {
            self.contains(p as i32)
        }
    }

    /// Fills position `value`, keeping `min` and `max` up to date.
    pub fn insert(&mut self, value: i32)
        requires
            old(self).wf(),
        ensures
            final(self).wf(),
            final(self)@ == old(self)@.insert(value as int),
    {
        let i = self.lower_bound(value);
        if self.cells.len() == 0 {
            self.min = value;
            self.max = value;
        } else if value < self.min {
            self.min = value;
        } else if value > self.max {
            self.max = value;
        }
        if i < self.cells.len() && self.cells[i] == value {
            proof {
                self.lemma_view_contains(value as int);
                assert(self@ =~= old(self)@.insert(value as int));
            }
            return;
        }
        let ghost before = self.cells@;
        self.cells.insert(i, value);
        proof {
            let n = before.len();
            assert(self.cells@ == before.insert(i as int, value));
            assert forall|a: int, b: int| 0 <= a < b < self.cells.len() implies self.cells[a]
                < self.cells[b] by {
                if b < i {
                } else if a > i {
                    assert(self.cells[a] == before[a - 1] && self.cells[b] == before[b - 1]);
                } else if a == i {
                    assert(self.cells[b] == before[b - 1]);
                    assert(before[b - 1] >= value);
                    assert(before[b - 1] != value) by {
                        if i < b - 1 {
                            assert(before[i as int] < before[b - 1]);
                        }
                    }
                } else if b == i {
                } else {
                    assert(self.cells[b] == before[b - 1]);
                }
            }
            if n > 0 {
                assert(self.cells[0] == if i == 0 { value } else { before[0] });
                assert(self.cells@.last() == if i == n { value } else { before[n - 1] });
                if i > 0 {
                    assert(before[0] < value);
                }
                if i < n {
                    assert(before[n - 1] >= value);
                }
            }
            assert forall|p: int| self@.contains(p) <==> old(self)@.insert(value as int).contains(
                p,
            ) by {
                self.lemma_view_contains(p);
                old(self).lemma_view_contains(p);
                if self@.contains(p) {
                    let j = choose|j: int|
                        0 <= j < self.cells.len() && #[trigger] self.cells[j] as int == p;
                    if j < i {
                        assert(before[j] as int == p);
                    } else if j > i {
                        assert(before[j - 1] as int == p);
                    }
                }
                if old(self)@.contains(p) {
                    let j = choose|j: int| 0 <= j < before.len() && #[trigger] before[j] as int == p;
                    if j < i {
                        assert(self.cells[j] as int == p);
                    } else {
                        assert(self.cells[j + 1] as int == p);
                    }
                }
                if p == value as int {
                    assert(self.cells[i as int] as int == p);
                }
            }
            assert(self@ =~= old(self)@.insert(value as int));
        }
    }

    /// The row whose filled positions are the indices of the marker
    /// characters of `s`.
    pub fn from_string(s: &str) -> (r: Row)
        requires
            s@.len() <= i32::MAX as int,
        ensures
            r.wf(),
            r@ == filled_of(s@),
    {
        let mut row = Row::new();
        let mut index: i32 = 0;
        for c in it: s.chars()
            invariant
                it.seq() == s@,
                s@.len() <= i32::MAX as int,
                index as int == it.index(),
                row.wf(),
                row@ == Set::new(|i: int| 0 <= i < index && s@[i] == FILLED),
        {
            assert(c == s@[index as int]);
            if c == FILLED {
                row.insert(index);
            }
            proof {
                assert(row@ =~= Set::new(|i: int| 0 <= i < index + 1 && s@[i] == FILLED));
            }
            index += 1;
        }
        proof {
            assert(row@ =~= filled_of(s@));
        }
        row
    }

    /// Whether no position is filled.
    pub fn is_empty(&self) -> (r: bool)
        requires
            self.wf(),
        ensures
            r == (self@ == Set::<int>::empty()),
    {
        proof {
            self.lemma_view();
        }
        self.cells.len() == 0
    }

    /// The number of filled positions.
    pub fn len(&self) -> (r: usize)
        requires
            self.wf(),
        ensures
            r == self@.len(),
    {
        proof {
            self.lemma_view();
        }
        self.cells.len()
    }

    /// How many of `index - 2`, `index - 1`, `index + 1`, `index + 2` are filled.
    pub fn calc_neighbor_sum(&self, index: i32) -> (r: u32)
        requires
            self.wf(),
        ensures
            r as int == neighbor_count(self@, index as int),
    {
        let p = index as i64;
        let mut sum: u32 = 0;
        if self.has(p - 2) {
            sum += 1;
        }
        if self.has(p - 1) {
            sum += 1;
        }
        if self.has(p + 1) {
            sum += 1;
        }
        if self.has(p + 2) {
            sum += 1;
        }
        sum
    }

    /// Whether an empty cell at `num` is born: two or three neighbours.
    pub fn test_rule_1(&self, num: i32) -> (r: bool)
        requires
            self.wf(),
        ensures
            r == is_born(self@, num as int),
    {
        let sum = self.calc_neighbor_sum(num);
        sum == 2 || sum == 3
    }

    /// Whether a filled cell at `num` survives: two or four neighbours.
    pub fn test_rule_2(&self, num: i32) -> (r: bool)
        requires
            self.wf(),
        ensures
            r == is_kept(self@, num as int),
    {
        let sum = self.calc_neighbor_sum(num);
        sum == 2 || sum == 4
    }

    /// The row one step later. Only `[min - 1, max + 1]` is scanned: no cell
    /// further out can be filled after one step.
    pub fn next(&self) -> (r: Row)
        requires
            self.wf(),
            within(self@, i32::MIN as int + 1, i32::MAX as int - 1),
        ensures
            r.wf(),
            r@ == step(self@),
    {
        proof {
            self.lemma_view();
            lemma_step_within(self@, self.min as int, self.max as int);
        }
        let mut row = Row::new();
        let first: i64 = self.min as i64 - 1;
        let last: i64 = self.max as i64 + 1;
        let mut p: i64 = first;
        while p <= last
            invariant
                self.wf(),
                row.wf(),
                first == self.min - 1,
                last == self.max + 1,
                i32::MIN <= first,
                last <= i32::MAX,
                first <= p <= last + 1,
                row@ == Set::new(|q: int| first <= q < p && filled_after(self@, q)),
            decreases last + 1 - p,
        {
            let q = p as i32;
            let fill = if self.contains(q) {
                self.test_rule_2(q)
            } else {
                self.test_rule_1(q)
            };
            if fill {
                row.insert(q);
            }
            proof {
                assert(row@ =~= Set::new(|x: int| first <= x < p + 1 && filled_after(self@, x)));
            }
            p += 1;
        }
        proof {
            assert(row@ =~= step(self@));
        }
        row
    }

    /// Whether every filled position of `self`, moved by `offset`, is filled
    /// in `other`. This tests inclusion one way only.
    pub fn eq_shift(&self, other: &Row, offset: i64) -> (r: bool)
        requires
            self.wf(),
            other.wf(),
        ensures
            r == covers_shifted(self@, other@, offset as int),
    {
        proof {
            other.lemma_view();
        }
        let mut i: usize = 0;
        while i < self.cells.len()
            invariant
                self.wf(),
                other.wf(),
                i <= self.cells.len(),
                within(other@, i32::MIN as int, i32::MAX as int),
                forall|j: int| 0 <= j < i ==> other@.contains(self.cells[j] + offset),
            decreases self.cells.len() - i,
        {
            let x = self.cells[i] as i64;
            match x.checked_add(offset) {
                None => {
                    proof {
                        self.lemma_view_contains(self.cells[i as int] as int);
                    }
                    return false;
                },
                Some(moved) => {
                    if !other.has(moved) {
                        proof {
                            self.lemma_view_contains(self.cells[i as int] as int);
                        }
                        return false;
                    }
                },
            }
            i += 1;
        }
        proof {
            assert forall|x: int| #[trigger] self@.contains(x) implies other@.contains(x + offset) by {
                self.lemma_view_contains(x);
            }
        }
        true
    }

    /// Whether `self` glides onto `other`: as many cells, a different
    /// leftmost cell, and `self` moved onto `other`'s leftmost cell lies
    /// inside `other`.
    pub fn is_gliding(&self, other: &Row) -> (r: bool)
        requires
            self.wf(),
            other.wf(),
        ensures
            r == glides_onto(self@, other@),
    {
        proof {
            self.lemma_view();
            other.lemma_view();
            if self.cells.len() > 0 {
                lemma_least(self@, self.min as int);
            }
            if other.cells.len() > 0 {
                lemma_least(other@, other.min as int);
            }
        }
        self.cells.len() == other.cells.len() && self.min != other.min && self.eq_shift(
            other,
            other.min as i64 - self.min as i64,
        )
    }

    /// Whether the two rows fill exactly the same positions.
    pub fn equals(&self, other: &Row) -> (r: bool)
        requires
            self.wf(),
            other.wf(),
        ensures
            r == (self@ == other@),
    {
        proof {
            self.lemma_view();
            other.lemma_view();
        }
        let r = self.cells.len() == other.cells.len() && self.eq_shift(other, 0);
        proof {
            if r {
                assert(self@.subset_of(other@)) by {
                    assert forall|x: int| self@.contains(x) implies other@.contains(x) by {
                        assert(other@.contains(x + 0));
                    }
                }
                lemma_subset_equality(self@, other@);
            }
        }
        r
    }
}

} // verus!
