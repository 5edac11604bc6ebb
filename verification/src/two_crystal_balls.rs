use vstd::prelude::*;

verus! {

/// `root` is the whole part of the square root of `n`.
pub open spec fn is_whole_root(root: int, n: int) -> bool {
    0 <= root && root * root <= n < (root + 1) * (root + 1)
}

/// Where the walk by jumps, which stands at `at`, ends: at the first place
/// it comes to that breaks, or at the first behind the end.
pub open spec fn first_broken_jump(breaks: Seq<bool>, jump: int, at: int) -> int
    decreases (if at < breaks.len() { breaks.len() - at } else { 0 }),
{
    if jump > 0 && 0 <= at < breaks.len() && !breaks[at] {
        first_broken_jump(breaks, jump, at + jump)
    } else {
        at
    }
}

/// The first place of the walk by single steps: one jump before the place
/// where the walk by jumps ended.
pub open spec fn walk_start(breaks: Seq<bool>, jump: int) -> int {
    first_broken_jump(breaks, jump, jump) - jump
}

/// The last place of the walk by single steps: the place where the walk by
/// jumps ended, or the last place there is.
pub open spec fn walk_end(breaks: Seq<bool>, jump: int) -> int {
    let reach = first_broken_jump(breaks, jump, jump);
    if reach >= breaks.len() {
        breaks.len() - 1
    } else {
        reach
    }
}

/// Once it breaks, it breaks from every place above.
pub open spec fn breaks_from_some_place_on(breaks: Seq<bool>) -> bool {
    forall|i: int, j: int| 0 <= i <= j < breaks.len() && breaks[i] ==> breaks[j]
}

/// The whole part of the square root of `n`.
fn whole_root(n: usize) -> (root: usize)
    ensures
        is_whole_root(root as int, n as int),
{
    let mut root: usize = 0;
    while root < n && root + 1 <= n / (root + 1)
        invariant
            root <= n,
            root * root <= n,
        decreases n - root,
    {
        proof {
            let next = root + 1;
            assert(next * (n as int / next) <= n) by (nonlinear_arith)
                requires
                    next > 0,
                    n >= 0,
            ;
            assert(next * next <= next * (n as int / next)) by (nonlinear_arith)
                requires
                    next > 0,
                    next <= n as int / next,
            ;
        }
        root += 1;
    }
    proof {
        let next = root + 1;
        if root < n {
            assert(n < next * next) by (nonlinear_arith)
                requires
                    next > 0,
                    n >= 0,
                    next > n as int / next,
            ;
        } else {
            assert(n < next * next) by (nonlinear_arith)
                requires
                    next == n + 1,
                    n >= 0,
            ;
        }
    }
    root
}

/// Looks for the lowest place that breaks, first by jumps of the whole root
/// of the length, then by single steps from the last jump that did not break
/// to the jump that broke, or to the end where none did.
///
/// Where `breaks` breaks from some place on, what comes back is the lowest
/// place that breaks, and `None` where none does.
pub fn two_crystal_balls(breaks: &[bool]) -> (found: Option<usize>)
    requires
        breaks@.len() > 0,
    ensures
        exists|jump: int|
            {
                &&& is_whole_root(jump, breaks@.len() as int)
                &&& match found {
                    Some(at) => {
                        &&& walk_start(breaks@, jump) <= at <= walk_end(breaks@, jump)
                        &&& breaks@[at as int]
                        &&& forall|k: int| walk_start(breaks@, jump) <= k < at ==> !breaks@[k]
                    },
                    None => forall|k: int|
                        walk_start(breaks@, jump) <= k <= walk_end(breaks@, jump) ==> !breaks@[k],
                }
            },
        breaks_from_some_place_on(breaks@) ==> (found matches Some(at) ==> forall|k: int|
            0 <= k < at ==> !breaks@[k]),
        breaks_from_some_place_on(breaks@) ==> (found is None <==> forall|k: int|
            0 <= k < breaks@.len() ==> !breaks@[k]),
{
    let lenght = breaks.len();
    let jmp_amount = whole_root(lenght);
    assert(jmp_amount >= 1 && jmp_amount <= lenght) by (nonlinear_arith)
        requires
            is_whole_root(jmp_amount as int, lenght as int),
            lenght >= 1,
    ;
    let ghost jump = jmp_amount as int;

    let mut lo: usize = 0;
    let mut i: usize = jmp_amount;
    while i < lenght
        invariant_except_break
            lo == i - jump,
            first_broken_jump(breaks@, jump, i as int) == first_broken_jump(breaks@, jump, jump),
        invariant
            jump == jmp_amount >= 1,
            lenght == breaks@.len(),
            lo < lenght,
            !breaks@[lo as int] || lo == 0,
        ensures
            lo == walk_start(breaks@, jump),
        decreases lenght - i,
    {
        if breaks[i] {
            break ;
        }
        lo = i;
        if lenght - i <= jmp_amount {
            proof {
                assert(first_broken_jump(breaks@, jump, i + jump) == i + jump);
            }
            break ;
        }
        i += jmp_amount;
    }

    let hi = if jmp_amount >= lenght - lo {
        lenght - 1
    } else {
        lo + jmp_amount
    };
    assert(hi == walk_end(breaks@, jump));

    let mut i: usize = lo;
    while i <= hi
        invariant
            lo <= i <= hi + 1,
            hi < lenght == breaks@.len(),
            is_whole_root(jump, lenght as int),
            lo == walk_start(breaks@, jump),
            hi == walk_end(breaks@, jump),
            !breaks@[lo as int] || lo == 0,
            forall|k: int| lo <= k < i ==> !breaks@[k],
        decreases hi + 1 - i,
    {
        if breaks[i] {
            proof {
                if breaks_from_some_place_on(breaks@) {
                    assert forall|k: int| 0 <= k < i implies !breaks@[k] by {
                        if k < lo {
                            assert(!breaks@[lo as int]);
                        }
                    }
                }
            }
            return Some(i);
        }
        i += 1;
    }
    proof {
        if breaks_from_some_place_on(breaks@) {
            let reach = first_broken_jump(breaks@, jump, jump);
            lemma_walk_ends_on_a_broken_place(breaks@, jump, jump);
            assert(reach >= lenght);
            assert forall|k: int| 0 <= k < lenght implies !breaks@[k] by {
                if k < lo {
                    assert(!breaks@[lenght - 1]);
                }
            }
        }
    }
    None
}

/// The walk by jumps ends behind the end or on a place that breaks.
proof fn lemma_walk_ends_on_a_broken_place(breaks: Seq<bool>, jump: int, at: int)
    requires
        jump > 0,
        0 <= at,
    ensures
        first_broken_jump(breaks, jump, at) >= breaks.len() || breaks[first_broken_jump(
            breaks,
            jump,
            at,
        )],
        first_broken_jump(breaks, jump, at) >= at,
    decreases (if at < breaks.len() { breaks.len() - at } else { 0 }),
{
    if at < breaks.len() && !breaks[at] {
        lemma_walk_ends_on_a_broken_place(breaks, jump, at + jump);
    }
}

} // verus!
