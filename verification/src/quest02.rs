//! Bolts of three colours are shot at a row, or a circle, of balloons, in
//! the order red, green, blue and again red; how many bolts does it take to
//! pop them all?

use vstd::prelude::*;
use std::collections::VecDeque;
use crate::text::{trim, trimmed};

verus! {

/// The colour of the bolt that is shot after `k` others: `R`, `G`, `B` and
/// round again.
pub open spec fn bolt(k: int) -> u8 {
    if k % 3 == 0 {
        82
    } else if k % 3 == 1 {
        71
    } else {
        66
    }
}

/// The number of bolts that it takes to pop the balloons of the row `s`
/// from place `at` on, where `k` bolts were shot before and `fresh` says
/// that the bolt in flight has not met a balloon yet. A bolt pops a balloon
/// of its own colour and flies on; it pops a balloon of another colour too
/// and stops there. No number is given where a bolt has popped the last
/// balloon and flies on.
pub open spec fn volley(s: Seq<u8>, at: int, k: int, fresh: bool) -> Option<int>
    decreases s.len() - at,
{
    if at < 0 || at >= s.len() {
        if fresh {
            Some(0)
        } else {
            None
        }
    } else if s[at] == bolt(k) {
        volley(s, at + 1, k, false)
    } else {
        match volley(s, at + 1, k + 1, true) {
            Some(n) => Some(n + 1),
            None => None,
        }
    }
}

/// The answer to the first part: the number of bolts for the row of
/// balloons that the notes hold between their blanks.
pub open spec fn part1_of(input: Seq<u8>) -> Option<int> {
    volley(trimmed(input), 0, 0, true)
}

/// The notes written out `times` times in a row.
pub open spec fn repeated(s: Seq<u8>, times: int) -> Seq<u8> {
    Seq::new((s.len() * times) as nat, |i: int| s[i % (s.len() as int)])
}

/// The number of bolts that it takes to pop the balloons of the circle `c`,
/// of which `c[0]` is the next to be shot at, where `k` bolts were shot
/// before. Every bolt pops the balloon it is shot at. Where the bolt has
/// the colour of that balloon and the balloons are even in number, it flies
/// on and pops the balloon straight across the circle too; the first bolt of
/// all never does.
pub open spec fn circle_shots(c: Seq<u8>, k: int) -> int
    decreases c.len(),
{
    if c.len() == 0 {
        0
    } else if k > 0 && c.len() % 2 == 0 && c[0] == bolt(k) {
        1 + circle_shots(c.remove(c.len() as int / 2).drop_first(), k + 1)
    } else {
        1 + circle_shots(c.drop_first(), k + 1)
    }
}

/// The number of bolts for the circle of balloons that the notes hold
/// between their blanks, written out `repeats` times. No number is given
/// for no repeat of some balloons, nor for more balloons than can be
/// counted.
pub open spec fn part23_of(input: Seq<u8>, repeats: int) -> Option<int> {
    let s = trimmed(input);
    if s.len() == 0 {
        Some(0)
    } else if repeats <= 0 || s.len() * repeats > usize::MAX {
        None
    } else {
        Some(circle_shots(repeated(s, repeats), 0))
    }
}

/// `r` holds `want`, or nothing as `want` does.
pub open spec fn is_count(r: Option<u64>, want: Option<int>) -> bool {
    match r {
        Some(n) => want == Some(n as int),
        None => want is None,
    }
}

/// The colour of the bolt that is shot after `k` others.
fn bolt_after(k: u64) -> (c: u8)
    ensures
        c == bolt(k as int),
{
    if k % 3 == 0 {
        82
    } else if k % 3 == 1 {
        71
    } else {
        66
    }
}

/// `o` and `n` more.
pub open spec fn plus(o: Option<int>, n: int) -> Option<int> {
    match o {
        Some(x) => Some(x + n),
        None => None,
    }
}

/// The number of bolts that it takes to pop a row of balloons, each bolt
/// popping the balloons of its own colour that it meets and the first of
/// another. Nothing is returned where a bolt pops the last balloon and
/// flies on.
pub fn solve_part1(input: &[u8]) -> (r: Option<u64>)
    ensures
        is_count(r, part1_of(input@)),
{
    let s = trim(input);
    let n = s.len();
    let mut bolts: u64 = 0;
    let mut fresh: bool = true;
    let mut at: usize = 0;
    while at < n
        invariant
            n == s@.len(),
            at <= n,
            bolts <= at,
            volley(s@, 0, 0, true) == plus(volley(s@, at as int, bolts as int, fresh), bolts as int),
        decreases n - at,
    {
        if s[at] == bolt_after(bolts) {
            fresh = false;
        } else {
            bolts += 1;
            fresh = true;
        }
        at += 1;
    }
    if fresh {
        Some(bolts)
    } else {
        None
    }
}

/// The number of bolts for the circle of balloons that the notes hold,
/// written out a hundred times.
pub fn solve_part2(input: &[u8]) -> (r: Option<u64>)
    ensures
        is_count(r, part23_of(input@, 100)),
{
    solve_part23(input, 100)
}

/// The number of bolts for the circle of balloons that the notes hold,
/// written out a hundred thousand times.
pub fn solve_part3(input: &[u8]) -> (r: Option<u64>)
    ensures
        is_count(r, part23_of(input@, 100_000)),
{
    solve_part23(input, 100_000)
}

/// The answers to the three parts, each from its own notes.
pub fn solve(part1: &[u8], part2: &[u8], part3: &[u8]) -> (r: (Option<u64>, Option<u64>, Option<u64>))
    ensures
        is_count(r.0, part1_of(part1@)),
        is_count(r.1, part23_of(part2@, 100)),
        is_count(r.2, part23_of(part3@, 100_000)),
{
    (solve_part1(part1), solve_part2(part2), solve_part3(part3))
}

/// The circle that the two halves make: the left half from its front to its
/// back, then the right half from its top down.
pub open spec fn ring(left: Seq<u8>, right: Seq<u8>) -> Seq<u8> {
    Seq::new(
        left.len() + right.len(),
        |i: int|
            if i < left.len() {
                left[i]
            } else {
                right[right.len() - 1 - (i - left.len())]
            },
    )
}

/// The number of bolts for the circle of balloons that the notes hold
/// between their blanks, written out `repeats` times. The circle is kept as
/// two halves: a queue whose front is the balloon that is shot at next, and
/// a stack whose top is the balloon straight across.
pub fn solve_part23(input: &[u8], repeats: usize) -> (r: Option<u64>)
    ensures
        is_count(r, part23_of(input@, repeats as int)),
{
    let s = trim(input);
    let len = s.len();
    if len == 0 {
        return Some(0);
    }
    if repeats == 0 {
        return None;
    }
    let total = match len.checked_mul(repeats) {
        Some(total) => total,
        None => {
            return None;
        },
    };
    let ghost circle = repeated(s@, repeats as int);
    proof {
        assert(len * repeats >= 1) by (nonlinear_arith)
            requires
                len >= 1,
                repeats >= 1,
        ;
    }
    let half = total / 2 + 1;
    let mut left: VecDeque<u8> = VecDeque::new();
    let mut i: usize = 0;
    while i < half
        invariant
            i <= half <= total,
            len == s@.len(),
            len > 0,
            left@.len() == i,
            forall|j: int| 0 <= j < i ==> #[trigger] left@[j] == s@[j % (len as int)],
        decreases half - i,
    {
        left.push_back(s[i % len]);
        i += 1;
    }
    let mut right: Vec<u8> = Vec::new();
    let mut i: usize = total;
    while i > half
        invariant
            half <= i <= total,
            len == s@.len(),
            len > 0,
            right@.len() == total - i,
            forall|j: int|
                0 <= j < right@.len() ==> #[trigger] right@[j] == s@[(total - 1 - j) % (len as int)],
        decreases i,
    {
        right.push(s[(i - 1) % len]);
        i -= 1;
    }
    proof {
        assert(ring(left@, right@) =~= circle);
    }
    let mut bolts: u64 = 0;
    loop
        invariant
            bolts + left@.len() + right@.len() <= total,
            circle_shots(circle, 0) == bolts + circle_shots(ring(left@, right@), bolts as int),
            left@.len() == right@.len() + 1 || (left@.len() == right@.len() && bolts > 0) || (
            left@.len() == right@.len() + 2 && bolts == 0),
        ensures
            circle_shots(circle, 0) == bolts,
        decreases left@.len() + right@.len(),
    {
        let ghost before = ring(left@, right@);
        let ghost old_left = left@;
        let ghost old_right = right@;
        let head = match left.pop_front() {
            Some(head) => head,
            None => {
                proof {
                    assert(ring(left@, right@) =~= Seq::<u8>::empty());
                }
                break ;
            },
        };
        proof {
            assert(before[0] == head);
            assert(before.len() == old_left.len() + old_right.len());
        }
        let ghost mut across: bool = false;
        if head == bolt_after(bolts) {
            if left.len() < right.len() {
                right.pop();
                proof {
                    across = true;
                }
            }
        }
        if left.len() < right.len() {
            match right.pop() {
                Some(b) => {
                    left.push_back(b);
                },
                None => {},
            }
        }
        proof {
            if across {
                assert(ring(left@, right@) =~= before.remove(before.len() as int / 2).drop_first());
            } else {
                assert(ring(left@, right@) =~= before.drop_first());
            }
        }
        bolts += 1;
    }
    Some(bolts)
}

} // verus!
