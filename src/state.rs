use vstd::prelude::*;

use crate::coding::{enough_fragments, frame_of, rs_decoded, rs_encoded, shares_view, unframe_of, well_shaped};
use crate::hash::{hash_eq, sha256_of, Hash32};
use crate::merkle::root_of;
use crate::msg::{Replica, Share};

verus! {

/// The phase of one broadcast instance.
#[derive(PartialEq, Eq, Structural, Debug, Clone, Copy)]
#[allow(non_camel_case_types)]
pub enum Status {
    WAITING,
    INIT,
    ECHO,
    READY,
    OUTPUT,
    TERMINATED,
}

/// The order of the phases: an instance only ever moves up it.
pub open spec fn rank(s: Status) -> nat {
    match s {
        Status::WAITING => 0,
        Status::INIT => 1,
        Status::ECHO => 2,
        Status::READY => 3,
        Status::OUTPUT => 4,
        Status::TERMINATED => 5,
    }
}

/// The fixed parameters of one instance: `n` replicas of which at most `f` are
/// faulty, reconstruction threshold `k`, this replica `me`, the broadcast `id`
/// and its `origin`.
pub struct Config {
    pub n: usize,
    pub f: usize,
    pub k: usize,
    pub me: Replica,
    pub id: u64,
    pub origin: Replica,
}

impl Config {
    /// `n > 3f`, `1 <= k <= n - 2f`, at most 256 replicas, and both replicas in range.
    pub open spec fn wf(&self) -> bool {
        &&& self.n > 3 * self.f
        &&& 1 <= self.k
        &&& self.k + 2 * self.f <= self.n
        &&& self.n <= 256
        &&& self.me < self.n
        &&& self.origin < self.n
    }

    /// Echoes needed to send Ready: `n - f`.
    pub fn echo_quorum(&self) -> (r: usize)
        requires
            self.wf(),
        ensures
            r == self.n - self.f,
    {
        self.n - self.f
    }

    /// Readies that justify sending Ready without an echo quorum: `f + 1`.
    pub fn ready_amplification(&self) -> (r: usize)
        requires
            self.wf(),
        ensures
            r == self.f + 1,
    {
        self.f + 1
    }

    /// Readies needed to deliver: `n - f`.
    pub fn ready_quorum(&self) -> (r: usize)
        requires
            self.wf(),
        ensures
            r == self.n - self.f,
    {
        self.n - self.f
    }
}

/// The evidence gathered for one commitment: who echoed it (with the fragment
/// each echo carried, in the same order) and who sent Ready for it.
pub struct Tally {
    pub c: Hash32,
    pub echoers: Vec<Replica>,
    pub readiers: Vec<Replica>,
    pub fragments: Vec<Share>,
}

/// Votes are distinct replicas in range, and fragment `j` came from echoer `j`.
pub open spec fn tally_wf(t: Tally, n: nat) -> bool {
    &&& t.echoers@.no_duplicates()
    &&& forall|j: int| 0 <= j < t.echoers@.len() ==> #[trigger] t.echoers@[j] < n
    &&& t.readiers@.no_duplicates()
    &&& forall|j: int| 0 <= j < t.readiers@.len() ==> #[trigger] t.readiers@[j] < n
    &&& t.fragments@.len() == t.echoers@.len()
    &&& forall|j: int| 0 <= j < t.fragments@.len() ==> #[trigger] t.fragments@[j].number == t.echoers@[j]
}

/// The state of one broadcast instance.
pub struct RBCState {
    pub tallies: Vec<Tally>,
    pub fragment: Share,
    pub proof: Vec<Hash32>,
    pub commitment: Hash32,
    pub output_message: Vec<u8>,
    pub status: Status,
    pub e: usize,
    pub sent_ready: bool,
    pub sent_echo: bool,
}

/// The digests of the fragment data.
pub open spec fn leaf_hashes(frags: Seq<Seq<u8>>) -> Seq<Seq<u8>> {
    frags.map_values(|d: Seq<u8>| sha256_of(d))
}

/// The commitment to decoded bytes: the Merkle root over the hashes of their coding.
pub open spec fn commitment_of(cfg: Config, d: Seq<u8>) -> Seq<u8> {
    root_of(leaf_hashes(rs_encoded(d, cfg.k as nat, cfg.n as nat)))
}

/// The fragments decode to bytes that hold payload `p`, and the coding of `p`
/// is committed under `c`.
pub open spec fn decodes_to(cfg: Config, frags: Seq<Share>, c: Seq<u8>, p: Seq<u8>) -> bool {
    &&& enough_fragments(frags, cfg.k as nat)
    &&& well_shaped(frags, cfg.n as nat)
    &&& rs_decoded(cfg.k as nat, cfg.n as nat, shares_view(frags)) is Some
    &&& unframe_of(rs_decoded(cfg.k as nat, cfg.n as nat, shares_view(frags))->Some_0) == Some(p)
    &&& commitment_of(cfg, frame_of(p)) == c
}

impl RBCState {
    /// Commitments are tracked once each, and every tally is well formed.
    pub open spec fn wf(&self, cfg: Config) -> bool {
        &&& forall|i: int, j: int|
            0 <= i < j < self.tallies@.len() ==> #[trigger] self.tallies@[i].c@ != #[trigger] self.tallies@[j].c@
        &&& forall|i: int| 0 <= i < self.tallies@.len() ==> tally_wf(#[trigger] self.tallies@[i], cfg.n as nat)
    }

    pub open spec fn has(&self, c: Seq<u8>) -> bool {
        exists|i: int| 0 <= i < self.tallies@.len() && #[trigger] self.tallies@[i].c@ == c
    }

    pub open spec fn slot(&self, c: Seq<u8>) -> int {
        choose|i: int| 0 <= i < self.tallies@.len() && #[trigger] self.tallies@[i].c@ == c
    }

    /// The evidence for commitment `c`, if any has arrived.
    pub open spec fn tally(&self, c: Seq<u8>) -> Option<Tally> {
        if self.has(c) {
            Some(self.tallies@[self.slot(c)])
        } else {
            None
        }
    }

    /// The replicas whose echo of `c` was counted.
    pub open spec fn echoers(&self, c: Seq<u8>) -> Seq<Replica> {
        match self.tally(c) {
            Some(t) => t.echoers@,
            None => seq![],
        }
    }

    /// The replicas whose Ready for `c` was counted.
    pub open spec fn readiers(&self, c: Seq<u8>) -> Seq<Replica> {
        match self.tally(c) {
            Some(t) => t.readiers@,
            None => seq![],
        }
    }

    /// The fragments gathered for `c`.
    pub open spec fn fragments(&self, c: Seq<u8>) -> Seq<Share> {
        match self.tally(c) {
            Some(t) => t.fragments@,
            None => seq![],
        }
    }

    /// A Ready quorum backs `c` and the fragments for `c` decode to a payload
    /// committed under `c`.
    pub open spec fn deliverable(&self, cfg: Config, c: Seq<u8>) -> bool {
        &&& self.readiers(c).len() >= cfg.n - cfg.f
        &&& exists|p: Seq<u8>| decodes_to(cfg, self.fragments(c), c, p)
    }

    /// Everything but the tallies is as in `o`.
    pub open spec fn same_flags(&self, o: RBCState) -> bool {
        &&& self.fragment == o.fragment
        &&& self.proof == o.proof
        &&& self.commitment == o.commitment
        &&& self.output_message == o.output_message
        &&& self.status == o.status
        &&& self.e == o.e
        &&& self.sent_ready == o.sent_ready
        &&& self.sent_echo == o.sent_echo
    }

    pub(crate) proof fn lemma_slot(&self, cfg: Config, c: Seq<u8>, i: int)
        requires
            self.wf(cfg),
            0 <= i < self.tallies@.len(),
            self.tallies@[i].c@ == c,
        ensures
            self.has(c),
            self.slot(c) == i,
            self.tally(c) == Some(self.tallies@[i]),
    {
        assert(self.has(c));
        let s = self.slot(c);
        if s != i {
            if s < i {
                assert(self.tallies@[s].c@ != self.tallies@[i].c@);
            } else {
                assert(self.tallies@[i].c@ != self.tallies@[s].c@);
            }
        }
    }

    /// Where the tally of `c` stands, if there is one.
    pub fn find(&self, c: &Hash32) -> (r: Option<usize>)
        ensures
            r matches Some(i) ==> i < self.tallies@.len() && self.tallies@[i as int].c@ == c@,
            r is None ==> !self.has(c@),
    {
        let mut i: usize = 0;
        while i < self.tallies.len()
            invariant
                i <= self.tallies@.len(),
                forall|j: int| 0 <= j < i ==> #[trigger] self.tallies@[j].c@ != c@,
            decreases self.tallies@.len() - i,
        {
            if hash_eq(&self.tallies[i].c, c) {
                return Some(i);
            }
            i = i + 1;
        }
        None
    }
}

/// Only the tallies of `c` may differ between `o` and `s`: the others keep
/// their places and contents, and any new one is for `c`.
pub open spec fn touches_only(o: RBCState, s: RBCState, c: Seq<u8>) -> bool {
    &&& s.tallies@.len() >= o.tallies@.len()
    &&& forall|i: int|
        0 <= i < o.tallies@.len() ==> #[trigger] s.tallies@[i].c@ == o.tallies@[i].c@ && (o.tallies@[i].c@
            != c ==> s.tallies@[i] == o.tallies@[i])
    &&& forall|i: int| o.tallies@.len() <= i < s.tallies@.len() ==> #[trigger] s.tallies@[i].c@ == c
}

proof fn lemma_others_unchanged(o: RBCState, s: RBCState, cfg: Config, c: Seq<u8>)
    requires
        o.wf(cfg),
        s.wf(cfg),
        touches_only(o, s, c),
    ensures
        forall|c2: Seq<u8>| c2 != c ==> #[trigger] s.tally(c2) == o.tally(c2),
{
    assert forall|c2: Seq<u8>| c2 != c implies #[trigger] s.tally(c2) == o.tally(c2) by {
        if o.has(c2) {
            let i = o.slot(c2);
            o.lemma_slot(cfg, c2, i);
            s.lemma_slot(cfg, c2, i);
        } else if s.has(c2) {
            let i = s.slot(c2);
            if i < o.tallies@.len() {
                assert(o.tallies@[i].c@ == c2);
            }
        }
    }
}

impl RBCState {
    /// A fresh instance: no evidence, no fragment, nothing sent, waiting.
    pub fn new() -> (r: RBCState)
        ensures
            r.tallies@.len() == 0,
            r.fragment.number == 0,
            r.fragment.data@.len() == 0,
            r.proof@.len() == 0,
            r.commitment@ == Seq::new(32, |i: int| 0u8),
            r.output_message@.len() == 0,
            r.status == Status::WAITING,
            r.e == 0,
            !r.sent_ready,
            !r.sent_echo,
            forall|cfg: Config| r.wf(cfg),
    {
        RBCState {
            tallies: Vec::new(),
            fragment: Share { number: 0, data: Vec::new() },
            proof: Vec::new(),
            commitment: [0u8; 32],
            output_message: Vec::new(),
            status: Status::WAITING,
            e: 0,
            sent_ready: false,
            sent_echo: false,
        }
    }

    /// Whether the instance has delivered its payload.
    pub fn is_delivered(&self) -> (r: bool)
        ensures
            r == (self.status == Status::OUTPUT || self.status == Status::TERMINATED),
    {
        self.status == Status::OUTPUT || self.status == Status::TERMINATED
    }

    /// How many distinct replicas echoed `c`.
    pub fn received_echo_count(&self, c: &Hash32) -> (r: usize)
        requires
            exists|cfg: Config| self.wf(cfg),
        ensures
            r == self.echoers(c@).len(),
    {
        match self.find(c) {
            Some(i) => {
                proof {
                    let cfg = choose|cfg: Config| self.wf(cfg);
                    self.lemma_slot(cfg, c@, i as int);
                }
                self.tallies[i].echoers.len()
            },
            None => 0,
        }
    }

    /// The largest echo count over all commitments, with a commitment that has
    /// it; `(0, None)` when no echo was counted.
    pub fn get_max_echo_count(&self) -> (r: (usize, Option<Hash32>))
        ensures
            forall|i: int| 0 <= i < self.tallies@.len() ==> #[trigger] self.tallies@[i].echoers@.len() <= r.0,
            r.1 is None <==> r.0 == 0,
            r.1 matches Some(h) ==> exists|i: int|
                0 <= i < self.tallies@.len() && #[trigger] self.tallies@[i].c == h
                    && self.tallies@[i].echoers@.len() == r.0,
    {
        let mut mode_content: Option<Hash32> = None;
        let mut max_count: usize = 0;
        let mut i: usize = 0;
        while i < self.tallies.len()
            invariant
                i <= self.tallies@.len(),
                forall|j: int| 0 <= j < i ==> #[trigger] self.tallies@[j].echoers@.len() <= max_count,
                mode_content is None <==> max_count == 0,
                mode_content matches Some(h) ==> exists|j: int|
                    0 <= j < i && #[trigger] self.tallies@[j].c == h
                        && self.tallies@[j].echoers@.len() == max_count,
            decreases self.tallies@.len() - i,
        {
            let count = self.tallies[i].echoers.len();
            if count > max_count {
                max_count = count;
                mode_content = Some(self.tallies[i].c);
            }
            i = i + 1;
        }
        (max_count, mode_content)
    }

    /// Counts the echo of `c` by `sender`, with the fragment it carried.
    pub(crate) fn add_echo(&mut self, cfg: &Config, c: &Hash32, sender: Replica, frag: Share)
        requires
            old(self).wf(*cfg),
            sender < cfg.n,
            frag.number == sender,
            !old(self).echoers(c@).contains(sender),
        ensures
            final(self).wf(*cfg),
            final(self).same_flags(*old(self)),
            touches_only(*old(self), *final(self), c@),
            final(self).has(c@),
            final(self).echoers(c@) == old(self).echoers(c@).push(sender),
            final(self).readiers(c@) == old(self).readiers(c@),
            final(self).fragments(c@) == old(self).fragments(c@).push(frag),
            forall|c2: Seq<u8>| c2 != c@ ==> #[trigger] final(self).tally(c2) == old(self).tally(c2),
    {
        let ghost o = *self;
        match self.find(c) {
            Some(i) => {
                proof {
                    o.lemma_slot(*cfg, c@, i as int);
                }
                let mut t = self.tallies.remove(i);
                t.echoers.push(sender);
                t.fragments.push(frag);
                self.tallies.insert(i, t);
                assert(self.tallies@ =~= o.tallies@.update(i as int, t));
                proof {
                    assert forall|j: int| 0 <= j < t.fragments@.len() implies #[trigger] t.fragments@[j].number
                        == t.echoers@[j] by {
                        if j < t.fragments@.len() - 1 {
                            assert(t.fragments@[j] == o.tallies@[i as int].fragments@[j]);
                        }
                    }
                    assert(tally_wf(t, cfg.n as nat));
                    assert forall|a: int, b: int| 0 <= a < b < self.tallies@.len() implies #[trigger] self.tallies@[a].c@
                        != #[trigger] self.tallies@[b].c@ by {
                        assert(o.tallies@[a].c@ != o.tallies@[b].c@);
                    }
                    self.lemma_slot(*cfg, c@, i as int);
                }
            },
            None => {
                let mut ev: Vec<Replica> = Vec::new();
                ev.push(sender);
                let mut fr: Vec<Share> = Vec::new();
                fr.push(frag);
                let t = Tally { c: *c, echoers: ev, readiers: Vec::new(), fragments: fr };
                self.tallies.push(t);
                proof {
                    assert(t.echoers@ =~= seq![sender]);
                    assert(tally_wf(t, cfg.n as nat));
                    assert(self.tallies@ =~= o.tallies@.push(t));
                    assert forall|a: int, b: int| 0 <= a < b < self.tallies@.len() implies #[trigger] self.tallies@[a].c@
                        != #[trigger] self.tallies@[b].c@ by {
                        if b < o.tallies@.len() {
                            assert(o.tallies@[a].c@ != o.tallies@[b].c@);
                        } else {
                            assert(o.tallies@[a].c@ != c@);
                        }
                    }
                    self.lemma_slot(*cfg, c@, o.tallies@.len() as int);
                    assert(t.echoers@ =~= seq![].push(sender));
                    assert(t.fragments@ =~= seq![].push(frag));
                    assert(t.readiers@ =~= seq![]);
                }
            },
        }
        proof {
            lemma_others_unchanged(o, *self, *cfg, c@);
        }
    }

    /// Counts the Ready for `c` by `sender`.
    pub(crate) fn add_ready(&mut self, cfg: &Config, c: &Hash32, sender: Replica)
        requires
            old(self).wf(*cfg),
            sender < cfg.n,
            !old(self).readiers(c@).contains(sender),
        ensures
            final(self).wf(*cfg),
            final(self).same_flags(*old(self)),
            touches_only(*old(self), *final(self), c@),
            final(self).has(c@),
            final(self).readiers(c@) == old(self).readiers(c@).push(sender),
            final(self).echoers(c@) == old(self).echoers(c@),
            final(self).fragments(c@) == old(self).fragments(c@),
            forall|c2: Seq<u8>| c2 != c@ ==> #[trigger] final(self).tally(c2) == old(self).tally(c2),
    {
        let ghost o = *self;
        match self.find(c) {
            Some(i) => {
                proof {
                    o.lemma_slot(*cfg, c@, i as int);
                }
                let mut t = self.tallies.remove(i);
                t.readiers.push(sender);
                self.tallies.insert(i, t);
                assert(self.tallies@ =~= o.tallies@.update(i as int, t));
                proof {
                    assert(tally_wf(t, cfg.n as nat));
                    assert forall|a: int, b: int| 0 <= a < b < self.tallies@.len() implies #[trigger] self.tallies@[a].c@
                        != #[trigger] self.tallies@[b].c@ by {
                        assert(o.tallies@[a].c@ != o.tallies@[b].c@);
                    }
                    self.lemma_slot(*cfg, c@, i as int);
                }
            },
            None => {
                let mut rv: Vec<Replica> = Vec::new();
                rv.push(sender);
                let t = Tally { c: *c, echoers: Vec::new(), readiers: rv, fragments: Vec::new() };
                self.tallies.push(t);
                proof {
                    assert(t.readiers@ =~= seq![sender]);
                    assert(tally_wf(t, cfg.n as nat));
                    assert(self.tallies@ =~= o.tallies@.push(t));
                    assert forall|a: int, b: int| 0 <= a < b < self.tallies@.len() implies #[trigger] self.tallies@[a].c@
                        != #[trigger] self.tallies@[b].c@ by {
                        if b < o.tallies@.len() {
                            assert(o.tallies@[a].c@ != o.tallies@[b].c@);
                        } else {
                            assert(o.tallies@[a].c@ != c@);
                        }
                    }
                    self.lemma_slot(*cfg, c@, o.tallies@.len() as int);
                    assert(t.readiers@ =~= seq![].push(sender));
                    assert(t.echoers@ =~= seq![]);
                    assert(t.fragments@ =~= seq![]);
                }
            },
        }
        proof {
            lemma_others_unchanged(o, *self, *cfg, c@);
        }
    }
}

impl Default for RBCState {
    fn default() -> (r: RBCState)
        ensures
            r.tallies@.len() == 0,
            r.fragment.number == 0,
            r.fragment.data@.len() == 0,
            r.proof@.len() == 0,
            r.commitment@ == Seq::new(32, |i: int| 0u8),
            r.output_message@.len() == 0,
            r.status == Status::WAITING,
            r.e == 0,
            !r.sent_ready,
            !r.sent_echo,
            forall|cfg: Config| r.wf(cfg),
    {
        RBCState::new()
    }
}

} // verus!
