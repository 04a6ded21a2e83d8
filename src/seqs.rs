use vstd::prelude::*;

verus! {

/// `s` written `n` times in a row.
pub open spec fn repeat_seq<A>(s: Seq<A>, n: nat) -> Seq<A>
    decreases n,
{
    if n == 0 { Seq::empty() } else { repeat_seq(s, (n - 1) as nat) + s }
}

pub proof fn lemma_repeat_len<A>(s: Seq<A>, n: nat)
    ensures
        repeat_seq(s, n).len() == s.len() * n,
    decreases n,
{
    if n > 0 {
        lemma_repeat_len(s, (n - 1) as nat);
        assert(s.len() * (n - 1) + s.len() == s.len() * n) by (nonlinear_arith);
    } else {
        assert(s.len() * n == 0) by (nonlinear_arith)
            requires
                n == 0,
        ;
    }
}

/// Writing `a` copies and then `b` copies writes `a + b` copies.
pub proof fn lemma_repeat_add<A>(s: Seq<A>, a: nat, b: nat)
    ensures
        repeat_seq(s, a) + repeat_seq(s, b) == repeat_seq(s, a + b),
    decreases b,
{
    if b == 0 {
        assert(repeat_seq(s, a) + Seq::<A>::empty() =~= repeat_seq(s, a));
    } else {
        lemma_repeat_add(s, a, (b - 1) as nat);
        assert(repeat_seq(s, a) + (repeat_seq(s, (b - 1) as nat) + s) =~= (repeat_seq(s, a)
            + repeat_seq(s, (b - 1) as nat)) + s);
    }
}

/// Repeating `m` times and the result `n` times is repeating `m * n` times.
pub proof fn lemma_repeat_repeat<A>(s: Seq<A>, m: nat, n: nat)
    ensures
        repeat_seq(repeat_seq(s, m), n) == repeat_seq(s, m * n),
    decreases n,
{
    if n == 0 {
        assert(m * 0 == 0);
    } else {
        lemma_repeat_repeat(s, m, (n - 1) as nat);
        lemma_repeat_add(s, (m * (n - 1)) as nat, m);
        assert(m * (n - 1) + m == m * n) by (nonlinear_arith);
    }
}

pub proof fn lemma_repeat_one<A>(s: Seq<A>)
    ensures
        repeat_seq(s, 1) == s,
{
    assert(repeat_seq(s, 0) == Seq::<A>::empty());
    assert(repeat_seq(s, 1) == repeat_seq(s, 0) + s);
    assert(Seq::<A>::empty() + s =~= s);
}

} // verus!
