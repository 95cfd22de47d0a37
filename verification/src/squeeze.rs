//! Blank-line squeezing: a run of consecutive blank lines is collapsed to at
//! most a configured number, while every non-blank line is kept. Lines keep
//! their original positions, so numbering downstream still reflects the
//! unsqueezed source.
use vstd::prelude::*;

verus! {

/// Which lines survive squeezing: given the blankness of each line in order,
/// a line is kept unless it is blank and already preceded by `limit`
/// consecutive blank lines. `run` is the number of consecutive blanks seen
/// immediately before the first line.
pub open spec fn squeeze_spec(blanks: Seq<bool>, limit: nat, run: nat) -> Seq<bool>
    decreases blanks.len(),
{
    if blanks.len() == 0 {
        Seq::empty()
    } else {
        let keep = !blanks[0] || run < limit;
        let next_run: nat = if blanks[0] {
            run + 1
        } else {
            0
        };
        seq![keep] + squeeze_spec(blanks.drop_first(), limit, next_run)
    }
}

/// Compute the keep flag for each line under squeezing with the given limit.
pub fn squeeze_flags(blanks: &[bool], limit: u64) -> (r: Vec<bool>)
    ensures
        r@ == squeeze_spec(blanks@, limit as nat, 0),
{
    let mut r: Vec<bool> = Vec::new();
    let mut run: u64 = 0;
    let mut i: usize = 0;
    let ghost mut grun: nat = 0nat;
    proof {
        assert(blanks@.skip(0) =~= blanks@);
        assert(Seq::<bool>::empty() + squeeze_spec(blanks@, limit as nat, 0) =~= squeeze_spec(
            blanks@,
            limit as nat,
            0,
        ));
    }
    while i < blanks.len()
        invariant
            i <= blanks@.len(),
            run <= limit ==> run == if grun < limit as nat {
                grun as u64
            } else {
                limit
            },
            run <= limit,
            (run < limit) == (grun < limit as nat),
            squeeze_spec(blanks@, limit as nat, 0) == r@ + squeeze_spec(
                blanks@.skip(i as int),
                limit as nat,
                grun,
            ),
        decreases blanks@.len() - i,
    {
        proof {
            assert(blanks@.skip(i as int)[0] == blanks@[i as int]);
            assert(blanks@.skip(i as int).drop_first() =~= blanks@.skip(i + 1 as int));
        }
        let b = blanks[i];
        let keep = !b || run < limit;
        r.push(keep);
        if b {
            if run < limit {
                run = run + 1;
            }
            proof {
                grun = grun + 1;
            }
        } else {
            run = 0;
            proof {
                grun = 0;
            }
        }
        i = i + 1;
    }
    proof {
        assert(squeeze_spec(blanks@.skip(blanks@.len() as int), limit as nat, grun) =~= Seq::<
            bool,
        >::empty());
        assert(r@ + Seq::<bool>::empty() =~= r@);
    }
    r
}

/// Count of `true` entries.
pub open spec fn count_true(s: Seq<bool>) -> nat
    decreases s.len(),
{
    if s.len() == 0 {
        0
    } else {
        (if s[0] {
            1nat
        } else {
            0nat
        }) + count_true(s.drop_first())
    }
}

/// A sequence of `n` blank lines.
pub open spec fn all_blank(n: nat) -> Seq<bool> {
    Seq::new(n, |i: int| true)
}

/// Squeezing keeps every non-blank line.
pub proof fn lemma_squeeze_keeps_nonblank(blanks: Seq<bool>, limit: nat, run: nat, i: int)
    requires
        0 <= i < blanks.len(),
        !blanks[i],
    ensures
        squeeze_spec(blanks, limit, run).len() == blanks.len(),
        squeeze_spec(blanks, limit, run)[i],
    decreases blanks.len(),
{
    lemma_squeeze_len(blanks, limit, run);
    if i > 0 {
        let next_run: nat = if blanks[0] {
            run + 1
        } else {
            0
        };
        assert(blanks.drop_first()[i - 1] == blanks[i]);
        lemma_squeeze_keeps_nonblank(blanks.drop_first(), limit, next_run, i - 1);
    }
}

/// Squeezing decides for each line, so the flags match the lines one to one.
pub proof fn lemma_squeeze_len(blanks: Seq<bool>, limit: nat, run: nat)
    ensures
        squeeze_spec(blanks, limit, run).len() == blanks.len(),
    decreases blanks.len(),
{
    if blanks.len() > 0 {
        let next_run: nat = if blanks[0] {
            run + 1
        } else {
            0
        };
        lemma_squeeze_len(blanks.drop_first(), limit, next_run);
    }
}

proof fn lemma_squeeze_blank_run_general(n: nat, limit: nat, run: nat)
    ensures
        count_true(squeeze_spec(all_blank(n), limit, run)) == if run >= limit {
            0nat
        } else if n <= limit - run {
            n
        } else {
            (limit - run) as nat
        },
    decreases n,
{
    if n == 0 {
    } else {
        assert(all_blank(n)[0]);
        assert(all_blank(n).drop_first() =~= all_blank((n - 1) as nat));
        lemma_squeeze_blank_run_general((n - 1) as nat, limit, run + 1);
        let s = squeeze_spec(all_blank(n), limit, run);
        assert(s[0] == (run < limit));
        assert(s.drop_first() =~= squeeze_spec(all_blank((n - 1) as nat), limit, run + 1));
    }
}

/// Squeezing a run of `n` blank lines with limit `k` keeps exactly
/// `min(n, k)` of them: a longer run is cut to `k`, a shorter one is kept
/// whole.
pub proof fn lemma_squeeze_blank_run(n: nat, k: nat)
    ensures
        count_true(squeeze_spec(all_blank(n), k, 0)) == if n <= k {
            n
        } else {
            k
        },
{
    lemma_squeeze_blank_run_general(n, k, 0);
}

} // verus!
