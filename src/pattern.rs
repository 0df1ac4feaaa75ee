use vstd::prelude::*;

verus! {

/// The behaviour that a row shows under repeated application of the rule.
#[derive(Debug, Clone, Copy, PartialEq, Eq, Structural)]
pub enum Pattern {
    Blinking,
    Gliding,
    Vanishing,
    Other,
}

impl Pattern {
    /// The lower-case name under which the pattern is reported.
    pub fn name(&self) -> (r: &'static str)
        ensures
            r@ == pattern_name(*self),
    {
        match self {
            Pattern::Blinking => "blinking",
            Pattern::Gliding => "gliding",
            Pattern::Vanishing => "vanishing",
            Pattern::Other => "other",
        }
    }
}

pub open spec fn pattern_name(p: Pattern) -> Seq<char> {
    match p {
        Pattern::Blinking => "blinking"@,
        Pattern::Gliding => "gliding"@,
        Pattern::Vanishing => "vanishing"@,
        Pattern::Other => "other"@,
    }
}

/// Puts results tagged with their line index back in line order: whatever
/// order the results arrive in, entry `i` of the answer is the pattern tagged
/// with index `i`.
pub fn in_line_order(results: &Vec<(usize, Pattern)>) -> (r: Vec<Pattern>)
    requires
        forall|i: int| 0 <= i < results.len() ==> (#[trigger] results[i]).0 < results.len(),
        forall|i: int, j: int| 0 <= i < j < results.len() ==> results[i].0 != results[j].0,
    ensures
        r.len() == results.len(),
        forall|i: int| 0 <= i < results.len() ==> r[(#[trigger] results[i]).0 as int] == results[i].1,
{
    let n = results.len();
    let mut r: Vec<Pattern> = Vec::new();
    let mut i: usize = 0;
    while i < n
        invariant
            r.len() == i,
            i <= n,
        decreases n - i,
    {
        r.push(Pattern::Other);
        i += 1;
    }
    let mut i: usize = 0;
    while i < n
        invariant
            n == results.len(),
            r.len() == n,
            i <= n,
            forall|k: int| 0 <= k < results.len() ==> (#[trigger] results[k]).0 < results.len(),
            forall|k: int, j: int| 0 <= k < j < results.len() ==> results[k].0 != results[j].0,
            forall|j: int| 0 <= j < i ==> r[(#[trigger] results[j]).0 as int] == results[j].1,
        decreases n - i,
    {
        let (index, pattern) = results[i];
        r.set(index, pattern);
        i += 1;
    }
    r
}

} // verus!
