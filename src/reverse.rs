use std::collections::VecDeque;
use vstd::prelude::*;

verus! {

/// Returns the elements of `points` in the opposite order.
pub fn reverse_slice<T: Copy>(points: &[T]) -> (r: Vec<T>)
    ensures
        r@ == points@.reverse(),
{
    let mut out: Vec<T> = Vec::new();
    let n = points.len();
    let mut i: usize = n;
    while i > 0
        invariant
            i <= n,
            n == points@.len(),
            out@ == points@.subrange(i as int, n as int).reverse(),
        decreases i,
    {
        i = i - 1;
        out.push(points[i]);
        assert(out@ =~= points@.subrange(i as int, n as int).reverse());
    }
    assert(points@.subrange(0, n as int) =~= points@);
    out
}

/// Returns the double-ended sequence `points` in the opposite order.
pub fn reverse_vec_deque<T: Clone>(points: VecDeque<T>) -> (r: VecDeque<T>)
    ensures
        r@ == points@.reverse(),
{
    let mut rest = points;
    let mut out: VecDeque<T> = VecDeque::new();
    while rest.len() > 0
        invariant
            points@ == out@.reverse() + rest@,
        decreases rest@.len(),
    {
        proof {
            broadcast use vstd::std_specs::vecdeque::axiom_spec_len;
        }
        let ghost before = rest@;
        let ghost acc = out@;
        match rest.pop_front() {
            Some(x) => {
                out.push_front(x);
                assert(out@.reverse() =~= acc.reverse().push(x));
                assert(before =~= seq![x] + rest@);
                assert(points@ =~= out@.reverse() + rest@);
            },
            None => {},
        }
    }
    proof {
        broadcast use vstd::std_specs::vecdeque::axiom_spec_len;
        assert(rest@.len() == 0);
        assert(points@ =~= out@.reverse());
        assert(out@ =~= points@.reverse());
    }
    out
}

/// Reversing a sequence twice gives it back.
pub proof fn reverse_twice<T>(s: Seq<T>)
    ensures
        s.reverse().reverse() == s,
{
    assert(s.reverse().reverse() =~= s);
}

} // verus!
