use vstd::prelude::*;

use reed_solomon_rs::fec::fec::FEC;

use crate::msg::Share;

verus! {

/// The data of the `n` fragments that the Reed-Solomon coder makes of `data`
/// with reconstruction threshold `k`.
pub uninterp spec fn rs_encoded(data: Seq<u8>, k: nat, n: nat) -> Seq<Seq<u8>>;

/// What the Reed-Solomon decoder returns for threshold `k`, `n` fragments in
/// all, and the given (number, data) fragments.
pub uninterp spec fn rs_decoded(k: nat, n: nat, shares: Seq<(usize, Seq<u8>)>) -> Option<Seq<u8>>;

/// The thresholds that the coder accepts.
pub open spec fn coder_params(k: nat, n: nat) -> bool {
    1 <= k <= n <= 256
}

/// The length of every fragment of `len` bytes with threshold `k`.
pub open spec fn piece_len(len: nat, k: nat) -> nat
    recommends
        k >= 1,
{
    ((len + k - 1) / k as int) as nat
}

/// The (number, data) view of a sequence of fragments.
pub open spec fn shares_view(s: Seq<Share>) -> Seq<(usize, Seq<u8>)> {
    s.map_values(|x: Share| (x.number, x.data@))
}

/// Relies on reed_solomon_rs's FEC::new, which accepts exactly 1 <= k <= n <= 256,
/// and FEC::encode, which pads the input to a multiple of k and hands out the
/// fragments numbered 0 to n - 1 in order, each of the padded length over k.
#[verifier::external_body]
pub(crate) fn rs_encode(data: &Vec<u8>, k: usize, n: usize) -> (r: Option<Vec<Share>>)
    ensures
        r is Some <==> coder_params(k as nat, n as nat),
        r matches Some(v) ==> {
            &&& v@.len() == n
            &&& rs_encoded(data@, k as nat, n as nat).len() == n
            &&& forall|i: int|
                0 <= i < n ==> {
                    &&& #[trigger] v@[i].number == i
                    &&& v@[i].data@ == rs_encoded(data@, k as nat, n as nat)[i]
                    &&& v@[i].data@.len() == piece_len(data@.len(), k as nat)
                }
        },
{
    let fec = FEC::new(k, n).ok()?;
    let mut out: Vec<Share> = Vec::new();
    fec.encode(data, |s| out.push(Share { number: s.number, data: s.data })).ok()?;
    Some(out)
}

/// The coder can rebuild from these fragments: at least `k` of them, and more
/// than `k` unless one is a systematic fragment (numbered below `k`). With
/// exactly `k` parity fragments the coder's rebuild step does not return.
pub open spec fn enough_fragments(s: Seq<Share>, k: nat) -> bool {
    ||| s.len() > k
    ||| (s.len() == k && exists|i: int| 0 <= i < s.len() && #[trigger] s[i].number < k)
}

/// Relies on reed_solomon_rs's FEC::new and FEC::decode: the result depends on the
/// thresholds and the fragments alone. Its rebuild step underflows on exactly
/// `k` fragments that are all parity fragments, so those are left out.
#[verifier::external_body]
pub(crate) fn rs_decode(k: usize, n: usize, shares: &Vec<Share>) -> (r: Option<Vec<u8>>)
    requires
        coder_params(k as nat, n as nat),
        enough_fragments(shares@, k as nat),
        forall|i: int| 0 <= i < shares@.len() ==> #[trigger] shares@[i].number < n,
        forall|i: int, j: int|
            0 <= i < j < shares@.len() ==> #[trigger] shares@[i].number != #[trigger] shares@[j].number,
        forall|i: int|
            0 <= i < shares@.len() ==> #[trigger] shares@[i].data@.len() == shares@[0].data@.len(),
    ensures
        r matches Some(v) ==> rs_decoded(k as nat, n as nat, shares_view(shares@)) == Some(v@),
        r is None ==> rs_decoded(k as nat, n as nat, shares_view(shares@)) is None,
{
    let fec = FEC::new(k, n).ok()?;
    let v: Vec<reed_solomon_rs::fec::fec::Share> = shares
        .iter()
        .map(|s| reed_solomon_rs::fec::fec::Share { number: s.number, data: s.data.clone() })
        .collect();
    fec.decode(Vec::new(), v).ok()
}

/// The byte that ends a payload inside the coded data.
pub const FRAME_END: u8 = 0x80;

/// The byte the coder pads the coded data with up to a multiple of `k`.
pub const PAD: u8 = 0x5f;

/// The bytes that are coded for a payload: the payload, then the end marker.
pub open spec fn frame_of(p: Seq<u8>) -> Seq<u8> {
    p.push(FRAME_END)
}

/// Position `j` holds the end marker and only padding follows it.
pub open spec fn frame_end_at(s: Seq<u8>, j: int) -> bool {
    &&& 0 <= j < s.len()
    &&& s[j] == FRAME_END
    &&& forall|i: int| j < i < s.len() ==> s[i] == PAD
}

/// The payload inside decoded bytes: what precedes the end marker that only
/// padding follows, if there is one.
pub open spec fn unframe_of(s: Seq<u8>) -> Option<Seq<u8>> {
    if exists|j: int| frame_end_at(s, j) {
        Some(s.subrange(0, choose|j: int| frame_end_at(s, j)))
    } else {
        None
    }
}

/// At most one position can hold the end marker followed by padding alone.
proof fn lemma_frame_end_unique(s: Seq<u8>, j1: int, j2: int)
    requires
        frame_end_at(s, j1),
        frame_end_at(s, j2),
    ensures
        j1 == j2,
{
    if j1 < j2 {
        assert(s[j2] == PAD);
    } else if j2 < j1 {
        assert(s[j1] == PAD);
    }
}

/// Unframing a framed payload followed by any amount of padding gives the payload back.
pub proof fn lemma_unframe_frame(p: Seq<u8>, pad: nat)
    ensures
        unframe_of(frame_of(p) + Seq::new(pad, |i: int| PAD)) == Some(p),
{
    let s = frame_of(p) + Seq::new(pad, |i: int| PAD);
    let j = p.len() as int;
    assert(frame_end_at(s, j));
    let c = choose|j: int| frame_end_at(s, j);
    lemma_frame_end_unique(s, j, c);
    assert(s.subrange(0, j) =~= p);
}

/// The bytes coded for `payload`.
pub fn frame(payload: &Vec<u8>) -> (r: Vec<u8>)
    ensures
        r@ == frame_of(payload@),
{
    let mut r = payload.clone();
    assert(r@ =~= payload@);
    r.push(FRAME_END);
    r
}

/// The payload inside decoded bytes, if they hold one.
pub fn unframe(s: &Vec<u8>) -> (r: Option<Vec<u8>>)
    ensures
        r matches Some(v) ==> unframe_of(s@) == Some(v@),
        r is None ==> unframe_of(s@) is None,
{
    let mut j: usize = s.len();
    while j > 0 && s[j - 1] == PAD
        invariant
            j <= s@.len(),
            forall|i: int| j <= i < s@.len() ==> s@[i] == PAD,
        decreases j,
    {
        j = j - 1;
    }
    if j == 0 || s[j - 1] != FRAME_END {
        proof {
            if exists|x: int| frame_end_at(s@, x) {
                let x = choose|x: int| frame_end_at(s@, x);
                if x < j - 1 {
                    assert(s@[j - 1] == PAD);
                }
            }
        }
        return None;
    }
    let ghost e = (j - 1) as int;
    proof {
        assert(frame_end_at(s@, e));
        let c = choose|x: int| frame_end_at(s@, x);
        lemma_frame_end_unique(s@, e, c);
    }
    let mut r: Vec<u8> = Vec::new();
    let mut i: usize = 0;
    while i < j - 1
        invariant
            j >= 1,
            j <= s@.len(),
            i <= j - 1,
            r@ =~= s@.subrange(0, i as int),
        decreases j - 1 - i,
    {
        r.push(s[i]);
        i = i + 1;
    }
    Some(r)
}

/// Why reconstruction failed.
pub enum CodingError {
    /// The thresholds are outside 1 <= k <= n <= 256.
    InvalidParameters,
    /// Fewer than `k` fragments were supplied, or exactly `k` that are all
    /// parity fragments.
    InsufficientFragments,
    /// The fragments disagree in size, repeat or exceed a position, or do not
    /// decode to a framed payload.
    CorruptFragments,
}

/// The fragments are distinct positions below `n` and all of one size.
pub open spec fn well_shaped(s: Seq<Share>, n: nat) -> bool {
    &&& forall|i: int| 0 <= i < s.len() ==> #[trigger] s[i].number < n
    &&& forall|i: int, j: int| 0 <= i < j < s.len() ==> #[trigger] s[i].number != #[trigger] s[j].number
    &&& forall|i: int| 0 <= i < s.len() ==> #[trigger] s[i].data@.len() == s[0].data@.len()
}

/// Splits `payload` into `n` fragments, any `k` of which reconstruct it.
pub fn encode(payload: &Vec<u8>, n: usize, k: usize) -> (r: Option<Vec<Share>>)
    ensures
        r is Some <==> coder_params(k as nat, n as nat),
        r matches Some(v) ==> {
            &&& v@.len() == n
            &&& forall|i: int|
                0 <= i < n ==> {
                    &&& #[trigger] v@[i].number == i
                    &&& v@[i].data@ == rs_encoded(frame_of(payload@), k as nat, n as nat)[i]
                }
        },
{
    let framed = frame(payload);
    rs_encode(&framed, k, n)
}

pub(crate) fn enough_check(s: &Vec<Share>, k: usize) -> (r: bool)
    ensures
        r == enough_fragments(s@, k as nat),
{
    if s.len() > k {
        return true;
    }
    if s.len() < k {
        return false;
    }
    let mut i: usize = 0;
    while i < s.len()
        invariant
            i <= s@.len(),
            s@.len() == k,
            forall|a: int| 0 <= a < i ==> #[trigger] s@[a].number >= k,
        decreases s@.len() - i,
    {
        if s[i].number < k {
            assert(s@[i as int].number < k);
            return true;
        }
        i = i + 1;
    }
    false
}

pub(crate) fn well_shaped_check(s: &Vec<Share>, n: usize) -> (r: bool)
    ensures
        r == well_shaped(s@, n as nat),
{
    let mut i: usize = 0;
    while i < s.len()
        invariant
            i <= s@.len(),
            forall|a: int| 0 <= a < i ==> #[trigger] s@[a].number < n,
            forall|a: int, b: int| 0 <= a < b < i ==> #[trigger] s@[a].number != #[trigger] s@[b].number,
            forall|a: int| 0 <= a < i ==> #[trigger] s@[a].data@.len() == s@[0].data@.len(),
        decreases s@.len() - i,
    {
        if s[i].number >= n || s[i].data.len() != s[0].data.len() {
            return false;
        }
        let mut j: usize = 0;
        while j < i
            invariant
                i < s@.len(),
                j <= i,
                forall|a: int| 0 <= a < j ==> #[trigger] s@[a].number != s@[i as int].number,
            decreases i - j,
        {
            if s[j].number == s[i].number {
                return false;
            }
            j = j + 1;
        }
        i = i + 1;
    }
    true
}

/// Reconstructs the payload from fragments of its coding.
pub fn decode(fragments: &Vec<Share>, n: usize, k: usize) -> (r: Result<Vec<u8>, CodingError>)
    ensures
        r matches Err(CodingError::InvalidParameters) <==> !coder_params(k as nat, n as nat),
        r matches Err(CodingError::InsufficientFragments) <==> coder_params(k as nat, n as nat)
            && !enough_fragments(fragments@, k as nat),
        r matches Err(CodingError::CorruptFragments) <==> coder_params(k as nat, n as nat)
            && enough_fragments(fragments@, k as nat) && (!well_shaped(fragments@, n as nat)
            || rs_decoded(k as nat, n as nat, shares_view(fragments@)) is None
            || unframe_of(rs_decoded(k as nat, n as nat, shares_view(fragments@))->Some_0) is None),
        r matches Ok(p) ==> {
            &&& coder_params(k as nat, n as nat)
            &&& enough_fragments(fragments@, k as nat)
            &&& well_shaped(fragments@, n as nat)
            &&& rs_decoded(k as nat, n as nat, shares_view(fragments@)) is Some
            &&& unframe_of(rs_decoded(k as nat, n as nat, shares_view(fragments@))->Some_0) == Some(p@)
        },
{
    if k < 1 || k > n || n > 256 {
        return Err(CodingError::InvalidParameters);
    }
    if !enough_check(fragments, k) {
        return Err(CodingError::InsufficientFragments);
    }
    if !well_shaped_check(fragments, n) {
        return Err(CodingError::CorruptFragments);
    }
    match rs_decode(k, n, fragments) {
        None => Err(CodingError::CorruptFragments),
        Some(d) => match unframe(&d) {
            None => Err(CodingError::CorruptFragments),
            Some(p) => Ok(p),
        },
    }
}

} // verus!
