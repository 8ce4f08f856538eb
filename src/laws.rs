use vstd::prelude::*;
use vstd::set_lib::{lemma_int_range, lemma_len_subset, lemma_set_intersect_union_lens, set_int_range};

use crate::hash::sha256_of;
use crate::merkle::{hashes_view, lemma_commitment_complete, path_of, root_of};
use crate::msg::{EchoMsg, ProtMsg, ReadyMsg, Replica, SendMsg};
use crate::protocol::{echo_step, echo_valid, ready_step, ready_valid, send_step, send_valid};
use crate::state::{Config, RBCState};

verus! {

/// Quorum intersection: two sets of at least `n - f` replicas out of `n`, with
/// `n > 3f`, share at least `f + 1` replicas.
pub proof fn lemma_quorum_intersection(a: Set<int>, b: Set<int>, n: int, f: int)
    requires
        0 <= f,
        3 * f < n,
        a.subset_of(set_int_range(0, n)),
        b.subset_of(set_int_range(0, n)),
        a.len() >= n - f,
        b.len() >= n - f,
    ensures
        a.intersect(b).len() >= f + 1,
{
    lemma_int_range(0, n);
    lemma_len_subset(a, set_int_range(0, n));
    lemma_len_subset(b, set_int_range(0, n));
    lemma_len_subset(a + b, set_int_range(0, n));
    lemma_set_intersect_union_lens(a, b);
}

/// Safety of the Ready quorums: two quorums of `n - f` out of `n` replicas,
/// with `n > 3f`, share a replica outside any set of at most `f` faulty ones.
/// An honest replica sends Ready for one commitment only, so two different
/// commitments can never both gather a Ready quorum.
pub proof fn lemma_quorums_share_honest(a: Set<int>, b: Set<int>, faulty: Set<int>, n: int, f: int)
    requires
        0 <= f,
        3 * f < n,
        a.subset_of(set_int_range(0, n)),
        b.subset_of(set_int_range(0, n)),
        a.len() >= n - f,
        b.len() >= n - f,
        faulty.finite(),
        faulty.len() <= f,
    ensures
        exists|x: int| a.contains(x) && b.contains(x) && !faulty.contains(x),
{
    lemma_quorum_intersection(a, b, n, f);
    let i = a.intersect(b);
    if i.subset_of(faulty) {
        lemma_len_subset(i, faulty);
    }
    assert(!i.subset_of(faulty));
    let x = choose|x: int| i.contains(x) && !faulty.contains(x);
    assert(a.contains(x) && b.contains(x) && !faulty.contains(x));
}

/// One Ready vote per replica: once an instance has sent Ready, no echo and
/// no Ready makes it send another, and it stays marked as having sent one.
/// With the quorum lemmas above this keeps honest replicas from completing
/// Ready quorums for two different commitments.
pub proof fn lemma_ready_vote_once(
    o: RBCState,
    s: RBCState,
    cfg: Config,
    msg: ProtMsg,
    out: Seq<ProtMsg>,
)
    requires
        o.sent_ready,
        msg matches ProtMsg::Echo(m, from) ==> echo_step(o, s, cfg, m, from, out),
        msg matches ProtMsg::Ready(m, from) ==> ready_step(o, s, cfg, m, from, out),
        !(msg is Init),
    ensures
        out.len() == 0,
        s.sent_ready,
{
}

/// Liveness of the echo round: the echo that an honest replica builds from a
/// valid Send (its fragment, the path to its position, the root over the
/// origin's hashes) passes every replica's echo check.
pub proof fn lemma_honest_echo_valid(cfg: Config, m: EchoMsg, d_hashes: Seq<Seq<u8>>, me: usize)
    requires
        d_hashes.len() == cfg.n,
        me < cfg.n,
        d_hashes[me as int] == sha256_of(m.d_i.data@),
        m.d_i.number == me,
        hashes_view(m.pi_i@) == path_of(d_hashes, me as int),
        m.c@ == root_of(d_hashes),
    ensures
        echo_valid(cfg, m, me),
{
    lemma_commitment_complete(d_hashes, me as int);
}

/// Idempotence of echoes: handing a valid echo to an instance a second time,
/// right after the first, changes nothing and sends nothing.
pub proof fn lemma_echo_idempotent(
    o: RBCState,
    s: RBCState,
    s2: RBCState,
    cfg: Config,
    m: EchoMsg,
    sender: Replica,
    out1: Seq<ProtMsg>,
    out2: Seq<ProtMsg>,
)
    requires
        echo_valid(cfg, m, sender),
        echo_step(o, s, cfg, m, sender, out1),
        echo_step(s, s2, cfg, m, sender, out2),
    ensures
        s2 == s,
        out2.len() == 0,
{
    let c = m.c@;
    if s.echoers(c).len() > 0 && s.echoers(c).last() == sender {
        assert(s.echoers(c).contains(sender));
    }
}

/// Idempotence of Ready votes: handing a valid Ready to an instance a second time,
/// right after the first, changes nothing and sends nothing.
pub proof fn lemma_ready_idempotent(
    o: RBCState,
    s: RBCState,
    s2: RBCState,
    cfg: Config,
    m: ReadyMsg,
    sender: Replica,
    out1: Seq<ProtMsg>,
    out2: Seq<ProtMsg>,
)
    requires
        ready_valid(o, cfg, m, sender),
        ready_step(o, s, cfg, m, sender, out1),
        ready_step(s, s2, cfg, m, sender, out2),
    ensures
        s2 == s,
        out2.len() == 0,
{
    let c = m.c@;
    if s.readiers(c).len() > 0 && s.readiers(c).last() == sender {
        assert(s.readiers(c).contains(sender));
    }
    assert(ready_valid(s, cfg, m, sender));
}

/// Counted votes stay counted: no echo and no Ready removes an echo or Ready
/// vote already counted for any commitment.
pub proof fn lemma_votes_persist(o: RBCState, s: RBCState, cfg: Config, msg: ProtMsg, out: Seq<ProtMsg>)
    requires
        msg matches ProtMsg::Echo(m, from) ==> echo_step(o, s, cfg, m, from, out),
        msg matches ProtMsg::Ready(m, from) ==> ready_step(o, s, cfg, m, from, out),
        !(msg is Init),
    ensures
        forall|c: Seq<u8>, x: Replica| #[trigger] o.echoers(c).contains(x) ==> s.echoers(c).contains(x),
        forall|c: Seq<u8>, x: Replica| #[trigger] o.readiers(c).contains(x) ==> s.readiers(c).contains(x),
{
    assert forall|c: Seq<u8>, x: Replica| #[trigger] o.echoers(c).contains(x) implies s.echoers(c).contains(x) by {
        let j = choose|j: int| 0 <= j < o.echoers(c).len() && o.echoers(c)[j] == x;
        assert(s.echoers(c)[j] == x);
    }
    assert forall|c: Seq<u8>, x: Replica| #[trigger] o.readiers(c).contains(x) implies s.readiers(c).contains(x) by {
        let j = choose|j: int| 0 <= j < o.readiers(c).len() && o.readiers(c)[j] == x;
        assert(s.readiers(c)[j] == x);
    }
}

/// Re-delivery from any later state: a valid echo whose vote is already
/// counted changes nothing and sends nothing, however many messages came in
/// between.
pub proof fn lemma_counted_echo_is_noop(
    o: RBCState,
    s: RBCState,
    cfg: Config,
    m: EchoMsg,
    sender: Replica,
    out: Seq<ProtMsg>,
)
    requires
        echo_valid(cfg, m, sender),
        o.echoers(m.c@).contains(sender),
        echo_step(o, s, cfg, m, sender, out),
    ensures
        s == o,
        out.len() == 0,
{
}

/// Re-delivery from any later state: a valid Ready whose vote is already
/// counted changes nothing and sends nothing.
pub proof fn lemma_counted_ready_is_noop(
    o: RBCState,
    s: RBCState,
    cfg: Config,
    m: ReadyMsg,
    sender: Replica,
    out: Seq<ProtMsg>,
)
    requires
        ready_valid(o, cfg, m, sender),
        o.readiers(m.c@).contains(sender),
        ready_step(o, s, cfg, m, sender, out),
    ensures
        s == o,
        out.len() == 0,
{
}

/// Re-delivery of a Send from any later state: once an instance has left
/// WAITING, no Send changes it or makes it send anything.
pub proof fn lemma_send_after_accept_is_noop(
    o: RBCState,
    s: RBCState,
    cfg: Config,
    m: SendMsg,
    sender: Replica,
    out: Seq<ProtMsg>,
)
    requires
        o.status != crate::state::Status::WAITING,
        send_step(o, s, cfg, m, sender, out),
    ensures
        s == o,
        out.len() == 0,
{
}

/// Idempotence of the Send: handing a valid Send to an instance a second
/// time, right after the first, changes nothing and sends nothing.
pub proof fn lemma_send_idempotent(
    o: RBCState,
    s: RBCState,
    s2: RBCState,
    cfg: Config,
    m: SendMsg,
    sender: Replica,
    out1: Seq<ProtMsg>,
    out2: Seq<ProtMsg>,
)
    requires
        send_valid(cfg, m),
        send_step(o, s, cfg, m, sender, out1),
        send_step(s, s2, cfg, m, sender, out2),
    ensures
        s2 == s,
        out2.len() == 0,
{
}

} // verus!
