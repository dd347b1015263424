//! Control messages and the counting functions used to account for them.

use vstd::prelude::*;

verus! {

/// A control message travelling from the dispatcher to the workers: either a
/// unit of work, named by the identifier the dispatcher assigned to it at
/// submission, or the order to shut down. A terminate order carries nothing.
#[derive(Clone, Copy, PartialEq, Eq, Structural, Debug)]
pub enum Message {
    NewJob(u64),
    Terminate,
}

/// How many terminate orders a message sequence holds.
pub open spec fn count_term(q: Seq<Message>) -> nat
    decreases q.len(),
{
    if q.len() == 0 {
        0
    } else {
        (if q[0] is Terminate {
            1nat
        } else {
            0nat
        }) + count_term(q.drop_first())
    }
}

/// How many job messages a message sequence holds.
pub open spec fn count_njob(q: Seq<Message>) -> nat
    decreases q.len(),
{
    if q.len() == 0 {
        0
    } else {
        (if q[0] is NewJob {
            1nat
        } else {
            0nat
        }) + count_njob(q.drop_first())
    }
}

/// How many job messages carrying the identifier `id` a message sequence holds.
pub open spec fn count_job_id(q: Seq<Message>, id: u64) -> nat
    decreases q.len(),
{
    if q.len() == 0 {
        0
    } else {
        (if q[0] == Message::NewJob(id) {
            1nat
        } else {
            0nat
        }) + count_job_id(q.drop_first(), id)
    }
}

/// How many times the identifier `id` occurs in a sequence of identifiers.
pub open spec fn count_id(s: Seq<u64>, id: u64) -> nat
    decreases s.len(),
{
    if s.len() == 0 {
        0
    } else {
        count_id(s.drop_last(), id) + (if s.last() == id {
            1nat
        } else {
            0nat
        })
    }
}

/// Once a terminate order stands in the queue, everything behind it is a
/// terminate order too: jobs are never enqueued after shutdown has begun.
pub open spec fn jobs_before_terminates(q: Seq<Message>) -> bool {
    forall|k1: int, k2: int|
        #![trigger q[k1], q[k2]]
        0 <= k1 < k2 < q.len() ==> (q[k1] is Terminate ==> q[k2] is Terminate)
}

/// Appending one message raises each message count by that message's
/// contribution and leaves the others unchanged.
pub proof fn lemma_counts_push(q: Seq<Message>, m: Message)
    ensures
        count_term(q.push(m)) == count_term(q) + (if m is Terminate {
            1nat
        } else {
            0nat
        }),
        count_njob(q.push(m)) == count_njob(q) + (if m is NewJob {
            1nat
        } else {
            0nat
        }),
    decreases q.len(),
{
    if q.len() == 0 {
        assert(q.push(m).drop_first() =~= q);
    } else {
        assert(q.push(m).drop_first() =~= q.drop_first().push(m));
        lemma_counts_push(q.drop_first(), m);
    }
}

/// The per-identifier form of `lemma_counts_push`.
pub proof fn lemma_count_job_id_push(q: Seq<Message>, m: Message, id: u64)
    ensures
        count_job_id(q.push(m), id) == count_job_id(q, id) + (if m == Message::NewJob(id) {
            1nat
        } else {
            0nat
        }),
    decreases q.len(),
{
    if q.len() == 0 {
        assert(q.push(m).drop_first() =~= q);
    } else {
        assert(q.push(m).drop_first() =~= q.drop_first().push(m));
        lemma_count_job_id_push(q.drop_first(), m, id);
    }
}

/// Appending one identifier raises its own count by one.
pub proof fn lemma_count_id_push(s: Seq<u64>, x: u64, id: u64)
    ensures
        count_id(s.push(x), id) == count_id(s, id) + (if x == id {
            1nat
        } else {
            0nat
        }),
{
    assert(s.push(x).drop_last() =~= s);
}

/// A sequence holds at most as many terminate orders as messages.
pub proof fn lemma_count_term_le(q: Seq<Message>)
    ensures
        count_term(q) <= q.len(),
    decreases q.len(),
{
    if q.len() > 0 {
        lemma_count_term_le(q.drop_first());
    }
}

/// A sequence without terminate orders holds none at any position.
pub proof fn lemma_count_term_zero(q: Seq<Message>)
    requires
        count_term(q) == 0,
    ensures
        forall|k: int| 0 <= k < q.len() ==> !((#[trigger] q[k]) is Terminate),
    decreases q.len(),
{
    if q.len() > 0 {
        lemma_count_term_zero(q.drop_first());
        assert forall|k: int| 0 <= k < q.len() implies !((#[trigger] q[k]) is Terminate) by {
            if k > 0 {
                assert(q.drop_first()[k - 1] == q[k]);
            }
        }
    }
}

/// When the front of an orderly queue is a terminate order, the whole queue
/// consists of terminate orders.
pub proof fn lemma_front_terminate_all(q: Seq<Message>)
    requires
        q.len() > 0,
        q[0] is Terminate,
        jobs_before_terminates(q),
    ensures
        count_term(q) == q.len(),
    decreases q.len(),
{
    if q.len() > 1 {
        assert(q.drop_first()[0] == q[1]);
        assert(q[1] is Terminate);
        assert(jobs_before_terminates(q.drop_first())) by {
            assert forall|k1: int, k2: int|
                #![trigger q.drop_first()[k1], q.drop_first()[k2]]
                0 <= k1 < k2 < q.drop_first().len() && q.drop_first()[k1] is Terminate implies q
                .drop_first()[k2] is Terminate by {
                assert(q.drop_first()[k1] == q[k1 + 1]);
                assert(q.drop_first()[k2] == q[k2 + 1]);
            }
        }
        lemma_front_terminate_all(q.drop_first());
    } else {
        assert(count_term(q.drop_first()) == 0);
    }
}

} // verus!
