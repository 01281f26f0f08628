//! The batch planner: greedy, order-preserving packing of statements into
//! batches bounded by a byte budget.
//!
//! Each statement contributes its UTF-8 byte length plus one for the
//! terminating semicolon.  Statements are taken in order; when the next one
//! would push the open batch past the budget, the batch is closed and a new
//! one begins.  A statement whose own contribution exceeds the budget is
//! never split: it becomes the sole member of its batch, which then
//! legitimately exceeds the budget.  The planner cannot fail and needs no
//! look-ahead; packing never reorders.

use vstd::prelude::*;
use vstd::utf8::encode_utf8;

verus! {

/// What a statement adds to a batch: its UTF-8 byte length, plus one for
/// the semicolon appended when the batch is serialized.
pub open spec fn stmt_size(s: Seq<char>) -> nat {
    encode_utf8(s).len() + 1
}

/// The serialized size a batch is charged for: the sum of its statements'
/// contributions.
pub open spec fn batch_size(b: Seq<Seq<char>>) -> nat
    decreases b.len(),
{
    if b.len() == 0 {
        0
    } else {
        batch_size(b.drop_last()) + stmt_size(b.last())
    }
}

/// The planner's fold: the batches cut from `stmts` when `cur` is the batch
/// currently open.  The next statement closes the open batch exactly when
/// it would push it past `max` and the batch holds something already;
/// whatever is open at the end is closed as the last batch.
pub open spec fn plan_rec(stmts: Seq<Seq<char>>, max: nat, cur: Seq<Seq<char>>) -> Seq<
    Seq<Seq<char>>,
>
    decreases stmts.len(),
{
    if stmts.len() == 0 {
        if cur.len() > 0 {
            seq![cur]
        } else {
            seq![]
        }
    } else {
        if batch_size(cur) + stmt_size(stmts[0]) > max && cur.len() > 0 {
            seq![cur] + plan_rec(stmts.drop_first(), max, seq![stmts[0]])
        } else {
            plan_rec(stmts.drop_first(), max, cur.push(stmts[0]))
        }
    }
}

/// The plan for `stmts` under the byte budget `max`.
pub open spec fn plan_spec(stmts: Seq<Seq<char>>, max: nat) -> Seq<Seq<Seq<char>>> {
    plan_rec(stmts, max, Seq::empty())
}

/// A batch is charged at least one byte per statement it holds.
proof fn lemma_batch_size_len(b: Seq<Seq<char>>)
    ensures
        batch_size(b) >= b.len(),
    decreases b.len(),
{
    if b.len() > 0 {
        lemma_batch_size_len(b.drop_last());
    }
}

/// A batch is charged at least the contribution of any one of its members.
proof fn lemma_batch_size_member(b: Seq<Seq<char>>, j: int)
    requires
        0 <= j < b.len(),
    ensures
        batch_size(b) >= stmt_size(b[j]),
    decreases b.len(),
{
    if j < b.len() - 1 {
        lemma_batch_size_member(b.drop_last(), j);
        assert(b.drop_last()[j] == b[j]);
    }
}

/// The shape of every plan the fold produces: batches are non-empty, each
/// fits the budget unless it is a lone statement, and concatenating them
/// restores `cur` followed by `stmts`.
proof fn lemma_plan_rec_props(stmts: Seq<Seq<char>>, max: nat, cur: Seq<Seq<char>>)
    requires
        cur.len() == 0 || batch_size(cur) <= max || cur.len() == 1,
    ensures
        ({
            let r = plan_rec(stmts, max, cur);
            &&& forall|i: int|
                0 <= i < r.len() ==> (#[trigger] r[i]).len() > 0 && (batch_size(r[i]) <= max
                    || r[i].len() == 1)
            &&& r.flatten() == cur + stmts
        }),
    decreases stmts.len(),
{
    let r = plan_rec(stmts, max, cur);
    if stmts.len() == 0 {
        if cur.len() > 0 {
            assert(r == seq![cur]);
            assert(r.drop_first() =~= Seq::<Seq<Seq<char>>>::empty());
            assert(Seq::<Seq<Seq<char>>>::empty().flatten() == Seq::<Seq<char>>::empty());
            assert(r.first() == cur);
            assert(r.flatten() == cur + Seq::<Seq<char>>::empty());
            assert(cur + stmts =~= cur + Seq::<Seq<char>>::empty());
        } else {
            assert(r.flatten() =~= cur + stmts);
        }
    } else {
        let first = stmts[0];
        let rest = stmts.drop_first();
        assert(seq![first] + rest =~= stmts);
        if batch_size(cur) + stmt_size(first) > max && cur.len() > 0 {
            assert(batch_size(seq![first].drop_last()) == 0) by {
                assert(seq![first].drop_last() =~= Seq::<Seq<char>>::empty());
            }
            lemma_plan_rec_props(rest, max, seq![first]);
            let r2 = plan_rec(rest, max, seq![first]);
            assert(r == seq![cur] + r2);
            assert(r.drop_first() =~= r2);
            assert(r[0] == cur);
            assert(r.flatten() == cur + r2.flatten());
            assert(cur + (seq![first] + rest) =~= cur + stmts);
            assert(forall|i: int| 1 <= i < r.len() ==> r[i] == r2[i - 1]);
        } else {
            assert(batch_size(cur.push(first)) == batch_size(cur) + stmt_size(first)) by {
                assert(cur.push(first).drop_last() =~= cur);
                assert(cur.push(first).last() == first);
            }
            lemma_plan_rec_props(rest, max, cur.push(first));
            assert(cur.push(first) + rest =~= cur + stmts);
        }
    }
}

/// Size bound: every batch of a plan is non-empty, and its serialized size
/// stays within the budget unless the batch holds a single statement.
pub proof fn lemma_plan_size_bound(stmts: Seq<Seq<char>>, max: nat, i: int)
    requires
        0 <= i < plan_spec(stmts, max).len(),
    ensures
        plan_spec(stmts, max)[i].len() > 0,
        batch_size(plan_spec(stmts, max)[i]) <= max || plan_spec(stmts, max)[i].len() == 1,
{
    lemma_plan_rec_props(stmts, max, Seq::empty());
}

/// Order preservation: concatenating the batches of a plan, in plan order,
/// restores the statement sequence exactly.
pub proof fn lemma_plan_preserves_order(stmts: Seq<Seq<char>>, max: nat)
    ensures
        plan_spec(stmts, max).flatten() == stmts,
{
    lemma_plan_rec_props(stmts, max, Seq::empty());
    assert(Seq::<Seq<char>>::empty() + stmts =~= stmts);
}

/// Oversized statements stand alone: a statement whose contribution
/// exceeds the budget is the only member of its batch.
pub proof fn lemma_plan_oversized_alone(stmts: Seq<Seq<char>>, max: nat, i: int, j: int)
    requires
        0 <= i < plan_spec(stmts, max).len(),
        0 <= j < plan_spec(stmts, max)[i].len(),
        stmt_size(plan_spec(stmts, max)[i][j]) > max,
    ensures
        plan_spec(stmts, max)[i].len() == 1,
{
    lemma_plan_size_bound(stmts, max, i);
    lemma_batch_size_member(plan_spec(stmts, max)[i], j);
}

/// Planning is deterministic: two plans of the same statements under the
/// same budget are the same plan.
pub proof fn lemma_plan_idempotent(
    stmts: Seq<Seq<char>>,
    max: nat,
    r1: Seq<Seq<Seq<char>>>,
    r2: Seq<Seq<Seq<char>>>,
)
    requires
        r1 == plan_spec(stmts, max),
        r2 == plan_spec(stmts, max),
    ensures
        r1 == r2,
{
}

/// Relies on `str::len`: a slice's length is the number of bytes of the
/// UTF-8 encoding of its characters, and fits in a `usize` by construction.
#[verifier::external_body]
fn byte_len(s: &str) -> (n: usize)
    ensures
        n == encode_utf8(s@).len(),
{
    s.len()
}

/// The plan for `statements` under the byte budget `max_bytes`: greedy,
/// in order, total.  Every batch comes back non-empty and within the
/// budget unless it holds a single oversized statement, and concatenating
/// the batches in order restores `statements`.
pub fn plan_batches(statements: &Vec<String>, max_bytes: usize) -> (r: Vec<Vec<String>>)
    ensures
        r.deep_view() == plan_spec(statements.deep_view(), max_bytes as nat),
        forall|i: int|
            0 <= i < r.deep_view().len() ==> (#[trigger] r.deep_view()[i]).len() > 0 && (
            batch_size(r.deep_view()[i]) <= max_bytes || r.deep_view()[i].len() == 1),
        r.deep_view().flatten() == statements.deep_view(),
{
    let ghost all = statements.deep_view();
    let ghost max = max_bytes as nat;
    let mut batches: Vec<Vec<String>> = Vec::new();
    let mut cur: Vec<String> = Vec::new();
    let mut cur_size: usize = 0;
    let mut idx: usize = 0;
    proof {
        assert(all.skip(0) =~= all);
        assert(batches.deep_view() =~= Seq::<Seq<Seq<char>>>::empty());
        assert(cur.deep_view() =~= Seq::<Seq<char>>::empty());
        assert(batches.deep_view() + plan_rec(all, max, cur.deep_view()) =~= plan_rec(
            all,
            max,
            cur.deep_view(),
        ));
    }
    while idx < statements.len()
        invariant
            idx <= statements.len(),
            all == statements.deep_view(),
            max == max_bytes as nat,
            if batch_size(cur.deep_view()) <= usize::MAX {
                cur_size == batch_size(cur.deep_view())
            } else {
                cur_size == usize::MAX
            },
            plan_spec(all, max) == batches.deep_view() + plan_rec(
                all.skip(idx as int),
                max,
                cur.deep_view(),
            ),
        decreases statements.len() - idx,
    {
        let ghost remaining = all.skip(idx as int);
        let ghost curv = cur.deep_view();
        let ghost bs = batch_size(curv);
        let len = byte_len(statements[idx].as_str());
        let sz = if len < usize::MAX {
            len + 1
        } else {
            usize::MAX
        };
        let ghost rs = stmt_size(all[idx as int]);
        proof {
            assert(statements.deep_view()[idx as int] == statements@[idx as int]@);
            assert(remaining[0] == all[idx as int]);
            assert(remaining.drop_first() =~= all.skip(idx + 1));
            lemma_batch_size_len(curv);
        }
        let close = cur.len() > 0 && (cur_size >= max_bytes || sz > max_bytes - cur_size);
        proof {
            assert(close == (bs + rs > max && curv.len() > 0));
        }
        if close {
            batches.push(cur);
            cur = Vec::new();
            cur_size = 0;
            proof {
                assert(cur.deep_view() =~= Seq::<Seq<char>>::empty());
            }
        }
        let ghost opened = cur.deep_view();
        let ghost opened_size = batch_size(opened);
        cur.push(statements[idx].clone());
        cur_size = if cur_size > usize::MAX - sz {
            usize::MAX
        } else {
            cur_size + sz
        };
        idx += 1;
        proof {
            assert(cur.deep_view() =~= opened.push(all[idx - 1]));
            assert(batch_size(opened.push(all[idx - 1])) == opened_size + rs) by {
                assert(opened.push(all[idx - 1]).drop_last() =~= opened);
            }
            if close {
                assert(batches.deep_view() =~= batches.deep_view().drop_last().push(curv));
                assert(plan_rec(remaining, max, curv) == seq![curv] + plan_rec(
                    all.skip(idx as int),
                    max,
                    seq![all[idx - 1]],
                ));
                assert(cur.deep_view() =~= seq![all[idx - 1]]);
                assert(batches.deep_view() + plan_rec(all.skip(idx as int), max, cur.deep_view())
                    =~= batches.deep_view().drop_last() + (seq![curv] + plan_rec(
                    all.skip(idx as int),
                    max,
                    seq![all[idx - 1]],
                )));
            } else {
                assert(plan_rec(remaining, max, curv) == plan_rec(
                    all.skip(idx as int),
                    max,
                    curv.push(all[idx - 1]),
                ));
            }
        }
    }
    proof {
        assert(all.skip(idx as int) =~= Seq::<Seq<char>>::empty());
    }
    if cur.len() > 0 {
        let ghost curv = cur.deep_view();
        batches.push(cur);
        proof {
            assert(batches.deep_view() =~= batches.deep_view().drop_last().push(curv));
            assert(batches.deep_view().drop_last() + seq![curv] =~= batches.deep_view());
        }
    } else {
        proof {
            assert(cur.deep_view() =~= Seq::<Seq<char>>::empty());
            assert(batches.deep_view() + Seq::<Seq<Seq<char>>>::empty() =~= batches.deep_view());
        }
    }
    proof {
        lemma_plan_rec_props(all, max, Seq::empty());
        assert(Seq::<Seq<char>>::empty() + all =~= all);
    }
    batches
}

} // verus!
