use vstd::prelude::*;

use crate::coding::{enough_check, frame, frame_of, rs_decode, rs_encode, rs_encoded, unframe, well_shaped_check};
use crate::hash::{hash_eq, sha256, sha256_of, Hash32};
use crate::merkle::{accepts, depth, depth_of, hashes_view, merkle_root, path_of, prove, root_of, verify};
use crate::msg::{EchoMsg, ProtMsg, ReadyMsg, Replica, SendMsg, Share};
use crate::state::{commitment_of, decodes_to, leaf_hashes, rank, Config, RBCState, Status};

verus! {

/// The data of each fragment.
pub open spec fn datas(v: Seq<Share>) -> Seq<Seq<u8>> {
    v.map_values(|s: Share| s.data@)
}

/// The digest of each fragment's data.
pub fn leaf_digests(v: &Vec<Share>) -> (r: Vec<Hash32>)
    ensures
        hashes_view(r@) == leaf_hashes(datas(v@)),
{
    let mut r: Vec<Hash32> = Vec::new();
    let mut i: usize = 0;
    while i < v.len()
        invariant
            i <= v@.len(),
            r@.len() == i,
            forall|j: int| 0 <= j < i ==> #[trigger] r@[j]@ == sha256_of(v@[j].data@),
        decreases v@.len() - i,
    {
        r.push(sha256(v[i].data.as_slice()));
        i = i + 1;
    }
    assert(hashes_view(r@) =~= leaf_hashes(datas(v@)));
    r
}

/// Commits to fragments: the Merkle root over their digests and each
/// fragment's authentication path.
pub fn commit(fragments: &Vec<Share>) -> (r: (Hash32, Vec<Vec<Hash32>>))
    ensures
        r.0@ == root_of(leaf_hashes(datas(fragments@))),
        r.1@.len() == fragments@.len(),
        forall|i: int|
            0 <= i < fragments@.len() ==> hashes_view(#[trigger] r.1@[i]@) == path_of(
                leaf_hashes(datas(fragments@)),
                i,
            ),
{
    let leaves = leaf_digests(fragments);
    let root = merkle_root(&leaves);
    let mut proofs: Vec<Vec<Hash32>> = Vec::new();
    let mut i: usize = 0;
    while i < leaves.len()
        invariant
            hashes_view(leaves@) == leaf_hashes(datas(fragments@)),
            leaves@.len() == fragments@.len(),
            i <= leaves@.len(),
            proofs@.len() == i,
            forall|j: int|
                0 <= j < i ==> hashes_view(#[trigger] proofs@[j]@) == path_of(hashes_view(leaves@), j),
        decreases leaves@.len() - i,
    {
        proofs.push(prove(&leaves, i));
        i = i + 1;
    }
    (root, proofs)
}

/// `m` is this replica's Ready vote for `c`.
pub open spec fn is_ready_for(m: ProtMsg, cfg: Config, c: Seq<u8>) -> bool {
    match m {
        ProtMsg::Ready(r, from) => r.id == cfg.id && r.c@ == c && r.origin == cfg.origin && from == cfg.me,
        _ => false,
    }
}

/// `m` is this replica's echo of fragment `data` under commitment `root`, with path `path`.
pub open spec fn is_echo_for(m: ProtMsg, cfg: Config, root: Seq<u8>, path: Seq<Seq<u8>>, data: Seq<u8>) -> bool {
    match m {
        ProtMsg::Echo(e, from) => {
            &&& e.id == cfg.id
            &&& e.origin == cfg.origin
            &&& from == cfg.me
            &&& e.c@ == root
            &&& hashes_view(e.pi_i@) == path
            &&& e.d_i.number == cfg.me
            &&& e.d_i.data@ == data
        },
        _ => false,
    }
}

/// One more than `e`, short of overflow.
pub open spec fn bump(e: usize) -> usize {
    if e < usize::MAX {
        (e + 1) as usize
    } else {
        e
    }
}

/// `s` is `o` with only the diagnostic counter raised.
pub open spec fn noted_invalid(o: RBCState, s: RBCState) -> bool {
    &&& s.tallies == o.tallies
    &&& s.fragment == o.fragment
    &&& s.proof == o.proof
    &&& s.commitment == o.commitment
    &&& s.output_message == o.output_message
    &&& s.status == o.status
    &&& s.sent_ready == o.sent_ready
    &&& s.sent_echo == o.sent_echo
    &&& s.e == bump(o.e)
}

/// The Send is for this instance, from its origin, and none was accepted yet.
pub open spec fn send_routed(st: RBCState, cfg: Config, m: SendMsg, sender: Replica) -> bool {
    &&& m.id == cfg.id
    &&& m.origin == cfg.origin
    &&& sender == cfg.origin
    &&& st.status == Status::WAITING
}

/// The Send carries `n` hashes, this replica's fragment, and that fragment's
/// hash stands at this replica's position.
pub open spec fn send_valid(cfg: Config, m: SendMsg) -> bool {
    &&& m.d_hashes@.len() == cfg.n
    &&& m.d_j.number == cfg.me
    &&& hashes_view(m.d_hashes@)[cfg.me as int] == sha256_of(m.d_j.data@)
}

/// The echo is for this instance, from a replica in range, and the instance
/// has not terminated.
pub open spec fn echo_routed(st: RBCState, cfg: Config, m: EchoMsg, sender: Replica) -> bool {
    &&& m.id == cfg.id
    &&& m.origin == cfg.origin
    &&& sender < cfg.n
    &&& st.status != Status::TERMINATED
}

/// The echo carries the sender's own fragment, proven at the sender's position
/// under the claimed commitment.
pub open spec fn echo_valid(cfg: Config, m: EchoMsg, sender: Replica) -> bool {
    &&& m.d_i.number == sender
    &&& accepts(sha256_of(m.d_i.data@), sender as nat, cfg.n as nat, hashes_view(m.pi_i@), m.c@)
}

/// The Ready is for this instance, from a replica in range, and the instance
/// has not terminated.
pub open spec fn ready_routed(st: RBCState, cfg: Config, m: ReadyMsg, sender: Replica) -> bool {
    &&& m.id == cfg.id
    &&& m.origin == cfg.origin
    &&& sender < cfg.n
    &&& st.status != Status::TERMINATED
}

/// The Ready's path has the depth of a tree over `n` leaves and, where the
/// sender's echo of the same commitment was counted, leads from the sender's
/// fragment to the commitment.
pub open spec fn ready_valid(st: RBCState, cfg: Config, m: ReadyMsg, sender: Replica) -> bool {
    &&& m.pi_i@.len() == depth_of(cfg.n as nat)
    &&& forall|j: int|
        0 <= j < st.echoers(m.c@).len() && #[trigger] st.echoers(m.c@)[j] == sender ==> accepts(
            sha256_of(st.fragments(m.c@)[j].data@),
            sender as nat,
            cfg.n as nat,
            hashes_view(m.pi_i@),
            m.c@,
        )
}

/// What a delivery attempt for `c` owes: a delivered instance keeps its output;
/// otherwise it delivers exactly when `c` is deliverable, and then the payload
/// that the fragments of `c` decode to.
pub open spec fn delivery_step(o: RBCState, s: RBCState, cfg: Config, c: Seq<u8>) -> bool {
    if rank(o.status) >= 4 {
        s.status == o.status && s.output_message == o.output_message
    } else {
        &&& (s.status == Status::OUTPUT <==> s.deliverable(cfg, c))
        &&& s.status == Status::OUTPUT ==> decodes_to(cfg, s.fragments(c), c, s.output_message@)
        &&& s.status != Status::OUTPUT ==> s.output_message == o.output_message
    }
}

/// What `handle_ready` does with `m` from `sender`: takes `o` to `s` and sends `out`.
pub open spec fn ready_step(o: RBCState, s: RBCState, cfg: Config, m: ReadyMsg, sender: Replica, out: Seq<ProtMsg>) -> bool {
    &&& (o.status != Status::TERMINATED ==> s.status != Status::TERMINATED)
    &&& (!ready_routed(o, cfg, m, sender) ==> s == o && out.len() == 0)
    &&& (ready_routed(o, cfg, m, sender) && !ready_valid(o, cfg, m, sender) ==> noted_invalid(o, s)
        && out.len() == 0)
    &&& (ready_routed(o, cfg, m, sender) && ready_valid(o, cfg, m, sender) && o.readiers(m.c@).contains(sender)
                ==> s == o && out.len() == 0)
    &&& (ready_routed(o, cfg, m, sender) && ready_valid(o, cfg, m, sender) && !o.readiers(m.c@).contains(sender) ==> {
                &&& s.readiers(m.c@) == o.readiers(m.c@).push(sender)
                &&& s.echoers(m.c@) == o.echoers(m.c@)
                &&& s.fragments(m.c@) == o.fragments(m.c@)
                &&& forall|c2: Seq<u8>| c2 != m.c@ ==> #[trigger] s.tally(c2) == o.tally(c2)
                &&& s.sent_ready == (o.sent_ready || s.readiers(m.c@).len() >= cfg.f + 1)
                &&& out.len() == (if !o.sent_ready && s.readiers(m.c@).len() >= cfg.f + 1 {
                    1int
                } else {
                    0int
                })
                &&& out.len() == 1 ==> is_ready_for(out[0], cfg, m.c@)
                &&& s.e == o.e
                &&& s.fragment == o.fragment
                &&& s.sent_echo == o.sent_echo
                &&& s.status != Status::OUTPUT ==> s.status == (if out.len() == 1 && rank(o.status) < 3 {
                    Status::READY
                } else {
                    o.status
                })
                &&& delivery_step(o, s, cfg, m.c@)
            })
}

/// What `handle_echo` does with `m` from `sender`: takes `o` to `s` and sends `out`.
pub open spec fn echo_step(o: RBCState, s: RBCState, cfg: Config, m: EchoMsg, sender: Replica, out: Seq<ProtMsg>) -> bool {
    &&& (o.status != Status::TERMINATED ==> s.status != Status::TERMINATED)
    &&& (!echo_routed(o, cfg, m, sender) ==> s == o && out.len() == 0)
    &&& (echo_routed(o, cfg, m, sender) && !echo_valid(cfg, m, sender) ==> noted_invalid(o, s) && out.len() == 0)
    &&& (echo_routed(o, cfg, m, sender) && echo_valid(cfg, m, sender) && o.echoers(m.c@).contains(sender) ==> s == o && out.len() == 0)
    &&& (echo_routed(o, cfg, m, sender) && echo_valid(cfg, m, sender) && !o.echoers(m.c@).contains(sender) ==> {
                &&& s.echoers(m.c@) == o.echoers(m.c@).push(sender)
                &&& s.readiers(m.c@) == o.readiers(m.c@)
                &&& s.fragments(m.c@).drop_last() == o.fragments(m.c@)
                &&& s.fragments(m.c@).last().number == sender
                &&& s.fragments(m.c@).last().data@ == m.d_i.data@
                &&& forall|c2: Seq<u8>| c2 != m.c@ ==> #[trigger] s.tally(c2) == o.tally(c2)
                &&& s.sent_ready == (o.sent_ready || s.echoers(m.c@).len() >= cfg.n - cfg.f)
                &&& out.len() == (if !o.sent_ready && s.echoers(m.c@).len() >= cfg.n - cfg.f {
                    1int
                } else {
                    0int
                })
                &&& out.len() == 1 ==> is_ready_for(out[0], cfg, m.c@)
                &&& s.e == o.e
                &&& s.fragment == o.fragment
                &&& s.sent_echo == o.sent_echo
                &&& s.status != Status::OUTPUT ==> s.status == (if out.len() == 1 && rank(o.status) < 3 {
                    Status::READY
                } else {
                    o.status
                })
                &&& delivery_step(o, s, cfg, m.c@)
            })
}

/// What `handle_send` does with `m` from `sender`: takes `o` to `s` and sends `out`.
pub open spec fn send_step(o: RBCState, s: RBCState, cfg: Config, m: SendMsg, sender: Replica, out: Seq<ProtMsg>) -> bool {
    &&& (!send_routed(o, cfg, m, sender) ==> s == o && out.len() == 0)
    &&& (send_routed(o, cfg, m, sender) && !send_valid(cfg, m) ==> noted_invalid(o, s) && out.len() == 0)
    &&& (send_routed(o, cfg, m, sender) && send_valid(cfg, m) ==> {
                &&& s.status == Status::ECHO
                &&& s.sent_echo
                &&& s.fragment.number == cfg.me
                &&& s.fragment.data@ == m.d_j.data@
                &&& hashes_view(s.proof@) == path_of(hashes_view(m.d_hashes@), cfg.me as int)
                &&& s.commitment@ == root_of(hashes_view(m.d_hashes@))
                &&& s.tallies == o.tallies
                &&& s.output_message == o.output_message
                &&& s.sent_ready == o.sent_ready
                &&& s.e == o.e
                &&& out.len() == 1
                &&& is_echo_for(
                    out[0],
                    cfg,
                    root_of(hashes_view(m.d_hashes@)),
                    path_of(hashes_view(m.d_hashes@), cfg.me as int),
                    m.d_j.data@,
                )
            })
}

impl RBCState {
    fn note_invalid(&mut self)
        ensures
            noted_invalid(*old(self), *final(self)),
    {
        if self.e < usize::MAX {
            self.e = self.e + 1;
        }
    }

    /// Whether `r`'s echo of `c` was counted.
    pub fn has_echo_from(&self, cfg: &Config, c: &Hash32, r: Replica) -> (b: bool)
        requires
            self.wf(*cfg),
        ensures
            b == self.echoers(c@).contains(r),
    {
        match self.find(c) {
            None => false,
            Some(i) => {
                proof {
                    self.lemma_slot(*cfg, c@, i as int);
                }
                let v = &self.tallies[i].echoers;
                let mut j: usize = 0;
                while j < v.len()
                    invariant
                        v@ == self.echoers(c@),
                        j <= v@.len(),
                        forall|a: int| 0 <= a < j ==> v@[a] != r,
                    decreases v@.len() - j,
                {
                    if v[j] == r {
                        assert(v@[j as int] == r);
                        return true;
                    }
                    j = j + 1;
                }
                false
            },
        }
    }

    /// Whether a Ready passes `ready_valid`.
    pub fn ready_check(&self, cfg: &Config, msg: &ReadyMsg, sender: Replica) -> (b: bool)
        requires
            self.wf(*cfg),
            sender < cfg.n,
        ensures
            b == ready_valid(*self, *cfg, *msg, sender),
    {
        if msg.pi_i.len() != depth(cfg.n) {
            return false;
        }
        match self.find(&msg.c) {
            None => true,
            Some(i) => {
                proof {
                    self.lemma_slot(*cfg, msg.c@, i as int);
                }
                let t = &self.tallies[i];
                let mut j: usize = 0;
                while j < t.echoers.len()
                    invariant
                        t.echoers@ == self.echoers(msg.c@),
                        t.fragments@ == self.fragments(msg.c@),
                        crate::state::tally_wf(*t, cfg.n as nat),
                        j <= t.echoers@.len(),
                        forall|a: int| 0 <= a < j ==> t.echoers@[a] != sender,
                    decreases t.echoers@.len() - j,
                {
                    if t.echoers[j] == sender {
                        let leaf = sha256(t.fragments[j].data.as_slice());
                        let ok = verify(&leaf, sender, cfg.n, &msg.pi_i, &msg.c);
                        proof {
                            assert forall|a: int|
                                0 <= a < t.echoers@.len() && #[trigger] t.echoers@[a] == sender implies a == j by {
                                if a != j {
                                    assert(t.echoers@.no_duplicates());
                                }
                            }
                        }
                        return ok;
                    }
                    j = j + 1;
                }
                true
            },
        }
    }

    /// Whether `r`'s Ready for `c` was counted.
    pub fn has_ready_from(&self, cfg: &Config, c: &Hash32, r: Replica) -> (b: bool)
        requires
            self.wf(*cfg),
        ensures
            b == self.readiers(c@).contains(r),
    {
        match self.find(c) {
            None => false,
            Some(i) => {
                proof {
                    self.lemma_slot(*cfg, c@, i as int);
                }
                let v = &self.tallies[i].readiers;
                let mut j: usize = 0;
                while j < v.len()
                    invariant
                        v@ == self.readiers(c@),
                        j <= v@.len(),
                        forall|a: int| 0 <= a < j ==> v@[a] != r,
                    decreases v@.len() - j,
                {
                    if v[j] == r {
                        assert(v@[j as int] == r);
                        return true;
                    }
                    j = j + 1;
                }
                false
            },
        }
    }

    /// Handles the origin's Send: accepts the first valid one, takes the
    /// commitment over its hashes, and echoes this replica's fragment with its
    /// authentication path.
    pub fn handle_send(&mut self, cfg: &Config, msg: &SendMsg, sender: Replica) -> (out: Vec<ProtMsg>)
        requires
            old(self).wf(*cfg),
            cfg.wf(),
        ensures
            final(self).wf(*cfg),
            rank(final(self).status) >= rank(old(self).status),
            send_step(*old(self), *final(self), *cfg, *msg, sender, out@),
    {
        if msg.id != cfg.id || msg.origin != cfg.origin || sender != cfg.origin || self.status
            != Status::WAITING {
            return Vec::new();
        }
        if msg.d_hashes.len() != cfg.n || msg.d_j.number != cfg.me {
            self.note_invalid();
            return Vec::new();
        }
        let leaf = sha256(msg.d_j.data.as_slice());
        if !hash_eq(&leaf, &msg.d_hashes[cfg.me]) {
            self.note_invalid();
            return Vec::new();
        }
        let c = merkle_root(&msg.d_hashes);
        let pi = prove(&msg.d_hashes, cfg.me);
        self.status = Status::INIT;
        self.fragment = msg.d_j.copy();
        self.proof = pi.clone();
        assert(hashes_view(self.proof@) =~= hashes_view(pi@)) by {
            assert forall|j: int| 0 <= j < pi@.len() implies self.proof@[j] == pi@[j] by {}
        }
        self.commitment = c;
        self.sent_echo = true;
        self.status = Status::ECHO;
        let echo = EchoMsg { id: cfg.id, d_i: msg.d_j.copy(), pi_i: pi, c: c, origin: cfg.origin };
        let mut out: Vec<ProtMsg> = Vec::new();
        out.push(ProtMsg::Echo(echo, cfg.me));
        out
    }
}

impl RBCState {
    /// Records that Ready was sent and moves up to READY; returns the vote.
    /// The vote carries this replica's own path when it echoed `c`, else the
    /// path of the message that led to the vote.
    fn send_ready(&mut self, cfg: &Config, c: &Hash32, fallback: &Vec<Hash32>) -> (m: ProtMsg)
        ensures
            is_ready_for(m, *cfg, c@),
            final(self).sent_ready,
            final(self).status == (if rank(old(self).status) < 3 { Status::READY } else { old(self).status }),
            final(self).tallies == old(self).tallies,
            final(self).output_message == old(self).output_message,
            final(self).fragment == old(self).fragment,
            final(self).proof == old(self).proof,
            final(self).commitment == old(self).commitment,
            final(self).e == old(self).e,
            final(self).sent_echo == old(self).sent_echo,
    {
        let pi = if self.sent_echo && hash_eq(&self.commitment, c) {
            self.proof.clone()
        } else {
            fallback.clone()
        };
        self.sent_ready = true;
        if self.status == Status::WAITING || self.status == Status::INIT || self.status == Status::ECHO {
            self.status = Status::READY;
        }
        ProtMsg::Ready(ReadyMsg { id: cfg.id, c: *c, pi_i: pi, origin: cfg.origin }, cfg.me)
    }

    /// Delivers the payload committed under `c` once a Ready quorum backs `c`
    /// and the gathered fragments decode to bytes whose commitment is `c`.
    fn try_deliver(&mut self, cfg: &Config, c: &Hash32)
        requires
            old(self).wf(*cfg),
            cfg.wf(),
        ensures
            final(self).tallies == old(self).tallies,
            final(self).fragment == old(self).fragment,
            final(self).proof == old(self).proof,
            final(self).commitment == old(self).commitment,
            final(self).e == old(self).e,
            final(self).sent_ready == old(self).sent_ready,
            final(self).sent_echo == old(self).sent_echo,
            rank(old(self).status) >= 4 ==> final(self).status == old(self).status
                && final(self).output_message == old(self).output_message,
            rank(old(self).status) < 4 ==> {
                &&& (final(self).status == Status::OUTPUT <==> old(self).deliverable(*cfg, c@))
                &&& final(self).status == Status::OUTPUT ==> decodes_to(
                    *cfg,
                    old(self).fragments(c@),
                    c@,
                    final(self).output_message@,
                )
                &&& final(self).status != Status::OUTPUT ==> final(self).status == old(self).status
                    && final(self).output_message == old(self).output_message
            },
    {
        if self.status == Status::OUTPUT || self.status == Status::TERMINATED {
            return;
        }
        let ghost cv = c@;
        let ghost k = cfg.k as nat;
        let ghost n = cfg.n as nat;
        let i = match self.find(c) {
            None => {
                return;
            },
            Some(i) => i,
        };
        proof {
            self.lemma_slot(*cfg, c@, i as int);
        }
        if self.tallies[i].readiers.len() < cfg.n - cfg.f {
            return;
        }
        let frags = &self.tallies[i].fragments;
        if !enough_check(frags, cfg.k) || !well_shaped_check(frags, cfg.n) {
            return;
        }
        let d = match rs_decode(cfg.k, cfg.n, frags) {
            None => {
                return;
            },
            Some(d) => d,
        };
        let p = match unframe(&d) {
            None => {
                return;
            },
            Some(p) => p,
        };
        let framed = frame(&p);
        let v = match rs_encode(&framed, cfg.k, cfg.n) {
            None => {
                return;
            },
            Some(v) => v,
        };
        let leaves = leaf_digests(&v);
        let root = merkle_root(&leaves);
        proof {
            assert forall|j: int| 0 <= j < n implies datas(v@)[j] == rs_encoded(framed@, k, n)[j] by {
                assert(v@[j].number == j);
            }
            assert(datas(v@) =~= rs_encoded(framed@, k, n));
            assert(root@ == commitment_of(*cfg, frame_of(p@)));
        }
        if !hash_eq(&root, c) {
            return;
        }
        proof {
            assert(decodes_to(*cfg, self.fragments(cv), cv, p@));
        }
        self.output_message = p;
        self.status = Status::OUTPUT;
    }
}

impl RBCState {
    /// Handles an echo: checks the fragment against its authentication path,
    /// counts one vote per replica and commitment, sends Ready on an echo
    /// quorum of `n - f`, and tries to deliver.
    pub fn handle_echo(&mut self, cfg: &Config, msg: &EchoMsg, sender: Replica) -> (out: Vec<ProtMsg>)
        requires
            old(self).wf(*cfg),
            cfg.wf(),
        ensures
            final(self).wf(*cfg),
            rank(final(self).status) >= rank(old(self).status),
            echo_step(*old(self), *final(self), *cfg, *msg, sender, out@),
    {
        if msg.id != cfg.id || msg.origin != cfg.origin || sender >= cfg.n || self.status
            == Status::TERMINATED {
            return Vec::new();
        }
        let leaf = sha256(msg.d_i.data.as_slice());
        if msg.d_i.number != sender || !verify(&leaf, sender, cfg.n, &msg.pi_i, &msg.c) {
            self.note_invalid();
            return Vec::new();
        }
        if self.has_echo_from(cfg, &msg.c, sender) {
            return Vec::new();
        }
        let ghost o = *self;
        self.add_echo(cfg, &msg.c, sender, msg.d_i.copy());
        let ghost after = *self;
        let count = self.received_echo_count(&msg.c);
        let mut out: Vec<ProtMsg> = Vec::new();
        if !self.sent_ready && count >= cfg.n - cfg.f {
            let m = self.send_ready(cfg, &msg.c, &msg.pi_i);
            out.push(m);
        }
        let ghost mid = *self;
        self.try_deliver(cfg, &msg.c);
        proof {
            assert(self.tallies == mid.tallies);
            assert forall|c2: Seq<u8>| c2 != msg.c@ implies #[trigger] self.tally(c2) == o.tally(c2) by {
                assert(after.tally(c2) == o.tally(c2));
                assert(after.tallies == mid.tallies);
                assert(self.tally(c2) == mid.tally(c2));
                assert(mid.tally(c2) == after.tally(c2));
            }
            assert(self.echoers(msg.c@) == o.echoers(msg.c@).push(sender));
            assert(self.readiers(msg.c@) == o.readiers(msg.c@));
            assert(self.fragments(msg.c@) == after.fragments(msg.c@));
            assert(after.fragments(msg.c@).drop_last() =~= o.fragments(msg.c@));
            assert(delivery_step(o, *self, *cfg, msg.c@));
        }
        out
    }

    /// Handles a Ready: counts one vote per replica and commitment, sends
    /// Ready on `f + 1` of them, and tries to deliver.
    pub fn handle_ready(&mut self, cfg: &Config, msg: &ReadyMsg, sender: Replica) -> (out: Vec<ProtMsg>)
        requires
            old(self).wf(*cfg),
            cfg.wf(),
        ensures
            final(self).wf(*cfg),
            rank(final(self).status) >= rank(old(self).status),
            ready_step(*old(self), *final(self), *cfg, *msg, sender, out@),
    {
        if msg.id != cfg.id || msg.origin != cfg.origin || sender >= cfg.n || self.status
            == Status::TERMINATED {
            return Vec::new();
        }
        if !self.ready_check(cfg, msg, sender) {
            self.note_invalid();
            return Vec::new();
        }
        if self.has_ready_from(cfg, &msg.c, sender) {
            return Vec::new();
        }
        let ghost o = *self;
        self.add_ready(cfg, &msg.c, sender);
        let ghost after = *self;
        let count = self.received_ready_count(cfg, &msg.c);
        let mut out: Vec<ProtMsg> = Vec::new();
        if !self.sent_ready && count >= cfg.f + 1 {
            let m = self.send_ready(cfg, &msg.c, &msg.pi_i);
            out.push(m);
        }
        let ghost mid = *self;
        self.try_deliver(cfg, &msg.c);
        proof {
            assert(self.tallies == mid.tallies);
            assert forall|c2: Seq<u8>| c2 != msg.c@ implies #[trigger] self.tally(c2) == o.tally(c2) by {
                assert(after.tally(c2) == o.tally(c2));
                assert(after.tallies == mid.tallies);
                assert(self.tally(c2) == mid.tally(c2));
                assert(mid.tally(c2) == after.tally(c2));
            }
            assert(self.readiers(msg.c@) == o.readiers(msg.c@).push(sender));
            assert(self.echoers(msg.c@) == o.echoers(msg.c@));
            assert(self.fragments(msg.c@) == o.fragments(msg.c@));
            assert(delivery_step(o, *self, *cfg, msg.c@));
        }
        out
    }

    /// How many distinct replicas sent Ready for `c`.
    pub fn received_ready_count(&self, cfg: &Config, c: &Hash32) -> (r: usize)
        requires
            self.wf(*cfg),
        ensures
            r == self.readiers(c@).len(),
    {
        match self.find(c) {
            Some(i) => {
                proof {
                    self.lemma_slot(*cfg, c@, i as int);
                }
                self.tallies[i].readiers.len()
            },
            None => 0,
        }
    }

    /// Hands one inbound message to the handler of its kind.
    pub fn handle(&mut self, cfg: &Config, msg: &ProtMsg) -> (out: Vec<ProtMsg>)
        requires
            old(self).wf(*cfg),
            cfg.wf(),
        ensures
            final(self).wf(*cfg),
            rank(final(self).status) >= rank(old(self).status),
            *msg matches ProtMsg::Init(m, from) ==> send_step(*old(self), *final(self), *cfg, m, from, out@),
            *msg matches ProtMsg::Echo(m, from) ==> echo_step(*old(self), *final(self), *cfg, m, from, out@),
            *msg matches ProtMsg::Ready(m, from) ==> ready_step(*old(self), *final(self), *cfg, m, from, out@),
    {
        match msg {
            ProtMsg::Init(m, from) => self.handle_send(cfg, m, *from),
            ProtMsg::Echo(m, from) => self.handle_echo(cfg, m, *from),
            ProtMsg::Ready(m, from) => self.handle_ready(cfg, m, *from),
        }
    }

    /// Ends a delivered instance: later messages for it are ignored.
    pub fn terminate(&mut self)
        ensures
            final(self).status == (if old(self).status == Status::OUTPUT {
                Status::TERMINATED
            } else {
                old(self).status
            }),
            final(self).tallies == old(self).tallies,
            final(self).output_message == old(self).output_message,
            final(self).fragment == old(self).fragment,
            final(self).proof == old(self).proof,
            final(self).commitment == old(self).commitment,
            final(self).e == old(self).e,
            final(self).sent_ready == old(self).sent_ready,
            final(self).sent_echo == old(self).sent_echo,
    {
        if self.status == Status::OUTPUT {
            self.status = Status::TERMINATED;
        }
    }
}

} // verus!
