//! The abstract behaviour shared by both logs: a sequence of entries,
//! appended at the back and popped from the front, and the laws that follow.
use vstd::prelude::*;

verus! {

/// One operation on a log, for reasoning about runs of operations.
pub enum LogOp {
    Append(String),
    Pop,
}

/// What `pop` returns on a log holding `s`: the first entry, if any.
pub open spec fn popped(s: Seq<String>) -> Option<String> {
    if s.len() == 0 {
        None
    } else {
        Some(s[0])
    }
}

/// What a log holding `s` holds after `pop`.
pub open spec fn after_pop(s: Seq<String>) -> Seq<String> {
    if s.len() == 0 {
        s
    } else {
        s.drop_first()
    }
}

/// What a log holding `s` holds after `op`.
pub open spec fn step(s: Seq<String>, op: LogOp) -> Seq<String> {
    match op {
        LogOp::Append(v) => s.push(v),
        LogOp::Pop => after_pop(s),
    }
}

/// What a log holding `s` holds after the operations `ops`, in order.
pub open spec fn run(s: Seq<String>, ops: Seq<LogOp>) -> Seq<String>
    decreases ops.len(),
{
    if ops.len() == 0 {
        s
    } else {
        step(run(s, ops.drop_last()), ops.last())
    }
}

/// The values returned by the pops among `ops` that found an entry, in order.
pub open spec fn outputs(s: Seq<String>, ops: Seq<LogOp>) -> Seq<String>
    decreases ops.len(),
{
    if ops.len() == 0 {
        Seq::empty()
    } else {
        let earlier = outputs(s, ops.drop_last());
        match ops.last() {
            LogOp::Pop => match popped(run(s, ops.drop_last())) {
                Some(v) => earlier.push(v),
                None => earlier,
            },
            LogOp::Append(_) => earlier,
        }
    }
}

/// The values appended by `ops`, in order.
pub open spec fn appended(ops: Seq<LogOp>) -> Seq<String>
    decreases ops.len(),
{
    if ops.len() == 0 {
        Seq::empty()
    } else {
        match ops.last() {
            LogOp::Append(v) => appended(ops.drop_last()).push(v),
            LogOp::Pop => appended(ops.drop_last()),
        }
    }
}

/// `n` pops in a row.
pub open spec fn pops(n: nat) -> Seq<LogOp> {
    Seq::new(n, |i: int| LogOp::Pop)
}

/// First in, first out: what the pops returned followed by what is still
/// held is what was held at the start followed by everything appended.
pub proof fn law_first_in_first_out(s: Seq<String>, ops: Seq<LogOp>)
    ensures
        outputs(s, ops) + run(s, ops) == s + appended(ops),
    decreases ops.len(),
{
    if ops.len() > 0 {
        let prefix = ops.drop_last();
        law_first_in_first_out(s, prefix);
        let before = run(s, prefix);
        match ops.last() {
            LogOp::Append(v) => {
                assert(outputs(s, ops) + run(s, ops) =~= (outputs(s, prefix) + before).push(v));
                assert(s + appended(ops) =~= (s + appended(prefix)).push(v));
            },
            LogOp::Pop => {
                if before.len() > 0 {
                    assert(outputs(s, ops) + run(s, ops) =~= outputs(s, prefix) + before);
                }
            },
        }
    } else {
        assert(outputs(s, ops) + run(s, ops) =~= s + appended(ops));
    }
}

/// Starting empty, the number of entries held is the number of appends minus
/// the number of pops that returned a value; the latter never exceeds the
/// former, so the count is never negative.
pub proof fn law_length_counts(ops: Seq<LogOp>)
    ensures
        run(Seq::empty(), ops).len() == appended(ops).len() - outputs(Seq::empty(), ops).len(),
        outputs(Seq::empty(), ops).len() <= appended(ops).len(),
{
    law_first_in_first_out(Seq::empty(), ops);
    assert(Seq::<String>::empty() + appended(ops) =~= appended(ops));
}

/// Appending the values `vals` one after another to an empty log, with no
/// pops, leaves exactly `vals`, in append order.
pub proof fn law_appends_only(vals: Seq<String>)
    ensures
        run(Seq::empty(), vals.map_values(|v: String| LogOp::Append(v))) == vals,
    decreases vals.len(),
{
    let ops = vals.map_values(|v: String| LogOp::Append(v));
    if vals.len() > 0 {
        let rest = vals.drop_last();
        law_appends_only(rest);
        assert(ops.drop_last() =~= rest.map_values(|v: String| LogOp::Append(v)));
        assert(run(Seq::empty(), ops) =~= vals);
    } else {
        assert(run(Seq::empty(), ops) =~= vals);
    }
}

/// `i` pops on a log holding `s` leave what follows the first `i` entries.
proof fn lemma_pops_drop(s: Seq<String>, i: nat)
    requires
        i <= s.len(),
    ensures
        run(s, pops(i)) == s.subrange(i as int, s.len() as int),
        appended(pops(i)) == Seq::<String>::empty(),
    decreases i,
{
    if i == 0 {
        assert(s.subrange(0, s.len() as int) =~= s);
    } else {
        assert(pops(i).drop_last() =~= pops((i - 1) as nat));
        lemma_pops_drop(s, (i - 1) as nat);
        assert(run(s, pops(i)) =~= s.subrange(i as int, s.len() as int));
    }
}

/// Popping a log of `k` entries `k` times returns the entries in their
/// order and leaves it empty; one more pop returns nothing.
pub proof fn law_drain(s: Seq<String>)
    ensures
        outputs(s, pops(s.len())) == s,
        run(s, pops(s.len())) == Seq::<String>::empty(),
        popped(run(s, pops(s.len()))) is None,
        outputs(s, pops(s.len() + 1)) == s,
{
    let k = s.len();
    lemma_pops_drop(s, k);
    law_first_in_first_out(s, pops(k));
    assert(run(s, pops(k)) =~= Seq::<String>::empty());
    assert(outputs(s, pops(k)) =~= outputs(s, pops(k)) + run(s, pops(k)));
    assert(s + appended(pops(k)) =~= s);
    assert(pops(k + 1).drop_last() =~= pops(k));
}

} // verus!
