//! Per-peer session state: what we have sent, what the peer has
//! announced, and what we infer both sides already hold.

use vstd::prelude::*;

use crate::bloom::{bloom_view_wf, BloomFilter, BloomView};
use crate::hash::{lex_sorted, lex_sorted_strict, ChangeHash};

verus! {

/// One summary of a peer's knowledge: the heads at which the bloom was
/// built, and a bloom over every change after them.
#[derive(Debug, Clone, PartialEq)]
pub struct Have {
    pub last_sync: Vec<ChangeHash>,
    pub bloom: BloomFilter,
}

/// The mathematical image of a `Have`.
pub ghost struct HaveView {
    pub last_sync: Seq<Seq<u8>>,
    pub bloom: BloomView,
}

impl View for Have {
    type V = HaveView;

    open spec fn view(&self) -> HaveView {
        HaveView { last_sync: self.last_sync.deep_view(), bloom: self.bloom@ }
    }
}

impl DeepView for Have {
    type V = HaveView;

    open spec fn deep_view(&self) -> HaveView {
        self@
    }
}

/// A summary is sound for the wire when its heads are sorted and its
/// bloom's shape is consistent.
pub open spec fn have_wf(h: HaveView) -> bool {
    &&& lex_sorted(h.last_sync)
    &&& bloom_view_wf(h.bloom)
}

impl Default for Have {
    /// The empty summary: no heads, an empty bloom. A message whose
    /// only summary is this one asks the peer for a full resync.
    fn default() -> (r: Self)
        ensures
            r@.last_sync == Seq::<Seq<u8>>::empty(),
            r@.bloom == (BloomView { n: 0, k: 0, m: 0, bits: Seq::<u8>::empty() }),
            have_wf(r@),
    {
        let r = Have { last_sync: Vec::new(), bloom: BloomFilter::default() };
        proof {
            assert(r@.last_sync =~= Seq::<Seq<u8>>::empty());
        }
        r
    }
}

/// The session state kept for one peer.
///
/// `shared_heads` are heads we believe both sides know; they are only
/// ever advanced. `last_sent_heads` are our heads as of the last
/// transmission. The `their_*` fields hold the peer's last message
/// verbatim and are absent before the first receive. `sent_hashes`
/// records every change hash already sent in this session.
#[derive(Debug)]
pub struct State {
    pub shared_heads: Vec<ChangeHash>,
    pub last_sent_heads: Vec<ChangeHash>,
    pub their_heads: Option<Vec<ChangeHash>>,
    pub their_need: Option<Vec<ChangeHash>>,
    pub their_have: Option<Vec<Have>>,
    pub sent_hashes: Vec<ChangeHash>,
}

/// The mathematical image of a session state.
pub ghost struct StateView {
    pub shared_heads: Seq<Seq<u8>>,
    pub last_sent_heads: Seq<Seq<u8>>,
    pub their_heads: Option<Seq<Seq<u8>>>,
    pub their_need: Option<Seq<Seq<u8>>>,
    pub their_have: Option<Seq<HaveView>>,
    pub sent_hashes: Seq<Seq<u8>>,
}

impl View for State {
    type V = StateView;

    open spec fn view(&self) -> StateView {
        StateView {
            shared_heads: self.shared_heads.deep_view(),
            last_sent_heads: self.last_sent_heads.deep_view(),
            their_heads: match self.their_heads {
                Some(v) => Some(v.deep_view()),
                None => None,
            },
            their_need: match self.their_need {
                Some(v) => Some(v.deep_view()),
                None => None,
            },
            their_have: match self.their_have {
                Some(v) => Some(v.deep_view()),
                None => None,
            },
            sent_hashes: self.sent_hashes.deep_view(),
        }
    }
}

/// The invariant the generator and receiver keep: the inferred and
/// remembered hash sets stay strictly sorted, and every remembered
/// bloom keeps its wire shape.
pub open spec fn state_wf(s: StateView) -> bool {
    &&& lex_sorted_strict(s.shared_heads)
    &&& lex_sorted_strict(s.sent_hashes)
    &&& match s.their_have {
        Some(hs) => forall|i: int| 0 <= i < hs.len() ==> bloom_view_wf(#[trigger] hs[i].bloom),
        None => true,
    }
}

impl State {
    /// The state of a fresh session: nothing shared, nothing sent,
    /// nothing yet heard from the peer.
    pub fn new() -> (r: State)
        ensures
            r@.shared_heads == Seq::<Seq<u8>>::empty(),
            r@.last_sent_heads == Seq::<Seq<u8>>::empty(),
            r@.their_heads is None,
            r@.their_need is None,
            r@.their_have is None,
            r@.sent_hashes == Seq::<Seq<u8>>::empty(),
            state_wf(r@),
    {
        let r = State {
            shared_heads: Vec::new(),
            last_sent_heads: Vec::new(),
            their_heads: None,
            their_need: None,
            their_have: None,
            sent_hashes: Vec::new(),
        };
        proof {
            assert(r@.shared_heads =~= Seq::<Seq<u8>>::empty());
            assert(r@.last_sent_heads =~= Seq::<Seq<u8>>::empty());
            assert(r@.sent_hashes =~= Seq::<Seq<u8>>::empty());
        }
        r
    }
}

} // verus!
