use vstd::prelude::*;
use crate::network::message_parser::{Message, MessageView};
use crate::peer::Peer;
use crate::storage::piece::{BLOCK_SIZE, Piece, PieceView, lemma_first_missing_exists, lemma_request_progress};
use crate::torrent_meta::TorrentMetadata;
use crate::tracker::TrackerResponse;

verus! {

/// The length of one piece hash in the `pieces` string of a torrent.
pub const HASH_SIZE: usize = 20;

/// The pieces of a torrent before any download: one per 20-byte hash of
/// `hashes` (trailing bytes ignored), each of `piece_length` bytes.
pub open spec fn fresh_pieces(hashes: Seq<u8>, piece_length: i64) -> Seq<PieceView> {
    Seq::new(
        hashes.len() / 20,
        |i: int| PieceView::fresh(piece_length as u64, i as u32, hashes.subrange(20 * i, 20 * i + 20)),
    )
}

/// Every piece is complete.
pub open spec fn all_complete(pieces: Seq<PieceView>) -> bool {
    forall|j: int| 0 <= j < pieces.len() ==> #[trigger] pieces[j].complete
}

/// Piece `k` is incomplete and every piece before it is complete.
pub open spec fn is_first_incomplete(pieces: Seq<PieceView>, k: int) -> bool {
    &&& 0 <= k < pieces.len()
    &&& !pieces[k].complete
    &&& forall|j: int| 0 <= j < k ==> #[trigger] pieces[j].complete
}

/// The first incomplete piece.
pub open spec fn first_incomplete(pieces: Seq<PieceView>) -> int {
    choose|k: int| is_first_incomplete(pieces, k)
}

/// A block can be requested: every piece is complete, or the first
/// incomplete piece has blocks.
pub open spec fn can_request(pieces: Seq<PieceView>) -> bool {
    all_complete(pieces) || pieces[first_incomplete(pieces)].num_blocks() > 0
}

/// The next block to download: the first missing block of the first
/// incomplete piece, or `None` once every piece is complete.
pub open spec fn block_request(pieces: Seq<PieceView>) -> Option<(u32, u64, u64)> {
    if all_complete(pieces) {
        None
    } else {
        Some(pieces[first_incomplete(pieces)].next_request())
    }
}

/// Some first incomplete piece exists when not all pieces are complete.
pub proof fn lemma_first_incomplete_exists(pieces: Seq<PieceView>)
    requires
        !all_complete(pieces),
    ensures
        is_first_incomplete(pieces, first_incomplete(pieces)),
{
    let k = choose|k: int| 0 <= k < pieces.len() && !(#[trigger] pieces[k].complete);
    lemma_least_incomplete(pieces, k);
}

proof fn lemma_least_incomplete(pieces: Seq<PieceView>, k: int)
    requires
        0 <= k < pieces.len(),
        !pieces[k].complete,
    ensures
        exists|i: int| is_first_incomplete(pieces, i),
    decreases k,
{
    if forall|j: int| 0 <= j < k ==> #[trigger] pieces[j].complete {
        assert(is_first_incomplete(pieces, k));
    } else {
        let j = choose|j: int| 0 <= j < k && !(#[trigger] pieces[j].complete);
        lemma_least_incomplete(pieces, j);
    }
}

/// What the peer loop does after a message: nothing more, send a message,
/// request the next block, or stop.
#[derive(Debug, PartialEq, Eq)]
pub enum PeerAction {
    Continue,
    Send(Message),
    RequestNext,
    Stop,
}

/// What we know of one peer: its id, address, the pieces it has and
/// whether it chokes us or is interested.
#[derive(Debug)]
pub struct PeerState {
    pub peer_id: usize,
    pub peer: Peer,
    pub have: Vec<bool>,
    pub choked: bool,
    pub interested: bool,
}

/// The download state of a torrent: its metadata, the tracker's answer,
/// the pieces and the peers.
#[derive(Debug)]
pub struct TorrentState {
    torrent_meta: TorrentMetadata,
    tracker_info: TrackerResponse,
    have: Vec<bool>,
    want: Vec<bool>,
    pub pieces: Vec<Piece>,
    pub peers: Vec<PeerState>,
}

/// The reply of the peer loop to a message, given whether we were choked
/// before it: a bitfield makes us say we are interested, an unchoke asks for
/// the next block, and so does a piece unless we are choked.
pub open spec fn reply(was_choked: bool, m: MessageView) -> PeerAction {
    match m {
        MessageView::UnChoke => PeerAction::RequestNext,
        MessageView::Bitfield(_) => PeerAction::Send(Message::Interested),
        MessageView::Piece(_, _, _) => if was_choked {
            PeerAction::Continue
        } else {
            PeerAction::RequestNext
        },
        _ => PeerAction::Continue,
    }
}

impl TorrentState {
    /// The pieces, as mathematical values.
    pub closed spec fn pieces_view(&self) -> Seq<PieceView> {
        self.pieces@.map_values(|p: Piece| p@)
    }

    /// Every piece is well formed.
    pub closed spec fn wf(&self) -> bool {
        forall|i: int| 0 <= i < self.pieces@.len() ==> #[trigger] self.pieces@[i].wf()
    }

    /// The states of the peers.
    pub closed spec fn peer_states(&self) -> Seq<PeerState> {
        self.peers@
    }

    /// Which pieces we have.
    pub closed spec fn have_view(&self) -> Seq<bool> {
        self.have@
    }

    /// Which pieces we want.
    pub closed spec fn want_view(&self) -> Seq<bool> {
        self.want@
    }

    /// The torrent's metadata.
    pub closed spec fn metadata(&self) -> TorrentMetadata {
        self.torrent_meta
    }

    /// The tracker's answer.
    pub closed spec fn tracker(&self) -> TrackerResponse {
        self.tracker_info
    }

    /// The state of a torrent before any download: one fresh piece per hash,
    /// all wanted, none had, no peers yet.
    pub fn create(torrent_meta: TorrentMetadata, tracker_res: TrackerResponse) -> (state: Self)
        requires
            (torrent_meta.info.piece_length as u64) / BLOCK_SIZE <= usize::MAX,
        ensures
            state.wf(),
            state.pieces_view() == fresh_pieces(torrent_meta.info.pieces@, torrent_meta.info.piece_length),
            state.have_view() == Seq::new(torrent_meta.info.pieces@.len() / 20, |i: int| false),
            state.want_view() == Seq::new(torrent_meta.info.pieces@.len() / 20, |i: int| true),
            state.peer_states().len() == 0,
            state.metadata() == torrent_meta,
            state.tracker() == tracker_res,
    {
        let mut torrent_state = TorrentState {
            torrent_meta: torrent_meta,
            tracker_info: tracker_res,
            pieces: Vec::new(),
            have: Vec::new(),
            want: Vec::new(),
            peers: Vec::new(),
        };
        torrent_state.init_storage();
        torrent_state
    }

    fn init_storage(&mut self)
        requires
            (old(self).torrent_meta.info.piece_length as u64) / BLOCK_SIZE <= usize::MAX,
        ensures
            final(self).wf(),
            final(self).pieces_view() == fresh_pieces(
                old(self).torrent_meta.info.pieces@,
                old(self).torrent_meta.info.piece_length,
            ),
            final(self).have@ == Seq::new(old(self).torrent_meta.info.pieces@.len() / 20, |i: int| false),
            final(self).want@ == Seq::new(old(self).torrent_meta.info.pieces@.len() / 20, |i: int| true),
            final(self).peers == old(self).peers,
            final(self).torrent_meta == old(self).torrent_meta,
            final(self).tracker_info == old(self).tracker_info,
    {
        let hashes = self.torrent_meta.info.pieces.as_slice();
        let total = hashes.len();
        let n = total / HASH_SIZE;
        let piece_length = self.torrent_meta.info.piece_length as u64;
        let ghost expected = fresh_pieces(hashes@, self.torrent_meta.info.piece_length);
        let mut pieces: Vec<Piece> = Vec::new();
        let mut have: Vec<bool> = Vec::new();
        let mut want: Vec<bool> = Vec::new();
        let mut idx: usize = 0;
        while idx < n
            invariant
                total == hashes@.len(),
                n == total / 20,
                idx <= n,
                piece_length == self.torrent_meta.info.piece_length as u64,
                piece_length / BLOCK_SIZE <= usize::MAX,
                expected == fresh_pieces(hashes@, self.torrent_meta.info.piece_length),
                pieces@.len() == idx,
                have@ == Seq::new(idx as nat, |i: int| false),
                want@ == Seq::new(idx as nat, |i: int| true),
                forall|i: int| 0 <= i < idx ==> (#[trigger] pieces@[i]).wf() && pieces@[i]@ == expected[i],
            decreases n - idx,
        {
            assert(idx * 20 + 20 <= total) by (nonlinear_arith)
                requires
                    idx < n,
                    n == total / 20,
            ;
            let start = idx * HASH_SIZE;
            let hash = vstd::slice::slice_to_vec(&hashes[start..start + HASH_SIZE]);
            let piece = Piece::new(piece_length, idx as u32, hash);
            pieces.push(piece);
            have.push(false);
            want.push(true);
            idx = idx + 1;
            assert(have@ =~= Seq::new(idx as nat, |i: int| false));
            assert(want@ =~= Seq::new(idx as nat, |i: int| true));
        }
        self.pieces = pieces;
        self.have = have;
        self.want = want;
        assert(self.pieces_view() =~= expected);
    }

    #[allow(dead_code)]
    fn init_peers(&mut self)
        ensures
            final(self).peers@.len() == old(self).tracker_info.peers@.len(),
            forall|i: int|
                0 <= i < final(self).peers@.len() ==> {
                    let p = #[trigger] final(self).peers@[i];
                    &&& p.peer_id == i
                    &&& p.peer == old(self).tracker_info.peers@[i]
                    &&& p.have@ == Seq::new(old(self).pieces@.len(), |j: int| false)
                    &&& p.choked
                    &&& !p.interested
                },
            final(self).pieces == old(self).pieces,
            final(self).have == old(self).have,
            final(self).want == old(self).want,
            final(self).torrent_meta == old(self).torrent_meta,
            final(self).tracker_info == old(self).tracker_info,
    {
        let n = self.tracker_info.peers.len();
        let num_pieces = self.pieces.len();
        let mut peers: Vec<PeerState> = Vec::new();
        let mut idx: usize = 0;
        while idx < n
            invariant
                n == self.tracker_info.peers@.len(),
                num_pieces == self.pieces@.len(),
                idx <= n,
                peers@.len() == idx,
                forall|i: int|
                    0 <= i < idx ==> {
                        let p = #[trigger] peers@[i];
                        &&& p.peer_id == i
                        &&& p.peer == self.tracker_info.peers@[i]
                        &&& p.have@ == Seq::new(num_pieces as nat, |j: int| false)
                        &&& p.choked
                        &&& !p.interested
                    },
            decreases n - idx,
        {
            let peer = self.tracker_info.peers[idx];
            peers.push(PeerState::new(peer, idx, num_pieces));
            idx = idx + 1;
        }
        self.peers = peers;
    }

    /// Stores a block received for piece `piece_index` at `offset`.
    pub fn store_data(&mut self, piece_index: u32, offset: u32, data: Vec<u8>)
        requires
            old(self).wf(),
            piece_index < old(self).pieces_view().len(),
            old(self).pieces_view()[piece_index as int].can_store(offset as u64, data@),
        ensures
            final(self).wf(),
            final(self).pieces_view() == old(self).pieces_view().update(
                piece_index as int,
                old(self).pieces_view()[piece_index as int].store(offset as u64, data@),
            ),
            final(self).have_view() == old(self).have_view(),
            final(self).want_view() == old(self).want_view(),
            final(self).metadata() == old(self).metadata(),
            final(self).tracker() == old(self).tracker(),
            final(self).peer_states() == old(self).peer_states(),
    {
        let i = piece_index as usize;
        assert(self.pieces@[i as int].wf());
        self.pieces[i].store_data(offset as u64, data);
        assert(self.pieces_view() =~= old(self).pieces_view().update(
            piece_index as int,
            old(self).pieces_view()[piece_index as int].store(offset as u64, data@),
        ));
    }

    /// Whether [`TorrentState::get_block_request`] can answer: every piece
    /// is complete, or the first incomplete one has blocks.
    pub fn can_request(&self) -> (ok: bool)
        requires
            self.wf(),
        ensures
            ok == can_request(self.pieces_view()),
    {
        let n = self.pieces.len();
        let mut i: usize = 0;
        while i < n
            invariant
                n == self.pieces@.len(),
                i <= n,
                self.wf(),
                forall|j: int| 0 <= j < i ==> #[trigger] self.pieces_view()[j].complete,
            decreases n - i,
        {
            if !self.pieces[i].is_complete() {
                proof {
                    assert(is_first_incomplete(self.pieces_view(), i as int));
                    lemma_first_incomplete_exists(self.pieces_view());
                    let k = first_incomplete(self.pieces_view());
                    assert(k == i) by {
                        if k < i {
                            assert(self.pieces_view()[k].complete);
                        } else if k > i {
                            assert(self.pieces_view()[i as int].complete);
                        }
                    }
                    assert(self.pieces@[i as int].wf());
                }
                return self.pieces[i].num_blocks() > 0;
            }
            i = i + 1;
        }
        assert(all_complete(self.pieces_view()));
        true
    }

    /// The next block to download: the first missing block of the first
    /// incomplete piece, or `None` once every piece is complete.
    pub fn get_block_request(&self) -> (r: Option<(u32, u64, u64)>)
        requires
            self.wf(),
            can_request(self.pieces_view()),
        ensures
            r == block_request(self.pieces_view()),
    {
        let n = self.pieces.len();
        let mut i: usize = 0;
        while i < n
            invariant
                n == self.pieces@.len(),
                i <= n,
                self.wf(),
                can_request(self.pieces_view()),
                forall|j: int| 0 <= j < i ==> #[trigger] self.pieces_view()[j].complete,
            decreases n - i,
        {
            if !self.pieces[i].is_complete() {
                proof {
                    assert(is_first_incomplete(self.pieces_view(), i as int));
                    lemma_first_incomplete_exists(self.pieces_view());
                    let k = first_incomplete(self.pieces_view());
                    assert(k == i) by {
                        if k < i {
                            assert(self.pieces_view()[k].complete);
                        } else if k > i {
                            assert(self.pieces_view()[i as int].complete);
                        }
                    }
                    assert(self.pieces@[i as int].wf());
                }
                return Some(self.pieces[i].get_next_block_request());
            }
            i = i + 1;
        }
        assert(all_complete(self.pieces_view()));
        None
    }
}

/// The action that follows a request for the next block: ask the peer for
/// it, or stop once every piece is complete.
pub fn request_action(torrent_state: &TorrentState) -> (action: PeerAction)
    requires
        torrent_state.wf(),
        can_request(torrent_state.pieces_view()),
    ensures
        action == match block_request(torrent_state.pieces_view()) {
            Some((index, offset, length)) => PeerAction::Send(
                Message::Request(index, offset as u32, length as u32),
            ),
            None => PeerAction::Stop,
        },
{
    match torrent_state.get_block_request() {
        Some((index, offset, len)) => PeerAction::Send(Message::Request(index, offset as u32, len as u32)),
        None => PeerAction::Stop,
    }
}

impl PeerState {
    /// A peer that has no piece, chokes us and is not interested.
    pub fn new(peer: Peer, id: usize, num_pieces: usize) -> (state: Self)
        ensures
            state.peer_id == id,
            state.peer == peer,
            state.have@ == Seq::new(num_pieces as nat, |i: int| false),
            state.choked,
            !state.interested,
    {
        let mut have: Vec<bool> = Vec::new();
        let mut i: usize = 0;
        while i < num_pieces
            invariant
                i <= num_pieces,
                have@ == Seq::new(i as nat, |j: int| false),
            decreases num_pieces - i,
        {
            have.push(false);
            i = i + 1;
            assert(have@ =~= Seq::new(i as nat, |j: int| false));
        }
        PeerState { peer_id: id, peer, have, choked: true, interested: false }
    }

    /// The message can be handled: a `Have` names one of the peer's pieces,
    /// and a `Piece` names one of ours and can be stored there.
    pub open spec fn accepts(&self, pieces: Seq<PieceView>, m: MessageView) -> bool {
        match m {
            MessageView::Have(index) => index < self.have@.len(),
            MessageView::Piece(index, offset, block) => {
                &&& index < pieces.len()
                &&& pieces[index as int].can_store(offset as u64, block)
            },
            _ => true,
        }
    }

    /// Checks that [`PeerState::handle_message`] can handle `message`.
    pub fn can_handle(&self, torrent_state: &TorrentState, message: &Message) -> (ok: bool)
        requires
            torrent_state.wf(),
        ensures
            ok == self.accepts(torrent_state.pieces_view(), message@),
    {
        match message {
            Message::Have(index) => (*index as usize) < self.have.len(),
            Message::Piece(index, offset, block) => {
                let i = *index as usize;
                if i >= torrent_state.pieces.len() {
                    false
                } else if block.len() != BLOCK_SIZE as usize {
                    true
                } else {
                    assert(torrent_state.pieces@[i as int].wf());
                    (*offset as u64) / BLOCK_SIZE < torrent_state.pieces[i].num_blocks() as u64
                }
            },
            _ => true,
        }
    }

    /// Updates the peer and the torrent after a message from the peer, and
    /// says what the loop does next (see [`reply`]).
    pub fn handle_message(&mut self, torrent_state: &mut TorrentState, message: Message) -> (action:
        PeerAction)
        requires
            old(torrent_state).wf(),
            old(self).accepts(old(torrent_state).pieces_view(), message@),
        ensures
            final(torrent_state).wf(),
            action == reply(old(self).choked, message@),
            action != PeerAction::Stop,
            message@ is Have ==> action == PeerAction::Continue,
            action == PeerAction::RequestNext ==> !final(self).choked,
            final(self).peer_id == old(self).peer_id,
            final(self).peer == old(self).peer,
            final(self).interested == old(self).interested,
            final(self).choked == match message@ {
                MessageView::Choke => true,
                MessageView::UnChoke => false,
                _ => old(self).choked,
            },
            final(self).have@ == match message@ {
                MessageView::Have(index) => old(self).have@.update(index as int, true),
                MessageView::Bitfield(bits) => bits,
                _ => old(self).have@,
            },
            final(torrent_state).pieces_view() == match message@ {
                MessageView::Piece(index, offset, block) => old(torrent_state).pieces_view().update(
                    index as int,
                    old(torrent_state).pieces_view()[index as int].store(offset as u64, block),
                ),
                _ => old(torrent_state).pieces_view(),
            },
            final(torrent_state).have_view() == old(torrent_state).have_view(),
            final(torrent_state).want_view() == old(torrent_state).want_view(),
            final(torrent_state).metadata() == old(torrent_state).metadata(),
            final(torrent_state).tracker() == old(torrent_state).tracker(),
            final(torrent_state).peer_states() == old(torrent_state).peer_states(),
    {
        match message {
            Message::Choke => {
                self.choked = true;
                PeerAction::Continue
            },
            Message::UnChoke => {
                self.choked = false;
                PeerAction::RequestNext
            },
            Message::Have(index) => {
                self.have.set(index as usize, true);
                PeerAction::Continue
            },
            Message::Bitfield(have) => {
                self.have = have;
                PeerAction::Send(Message::Interested)
            },
            Message::Piece(piece_index, offset, block) => {
                torrent_state.store_data(piece_index, offset, block);
                if !self.choked {
                    PeerAction::RequestNext
                } else {
                    PeerAction::Continue
                }
            },
            _ => PeerAction::Continue,
        }
    }
}

/// Every request that the torrent hands out names the first missing block
/// of the first incomplete piece: the block lies inside the piece, starts on
/// a block boundary, spans one block and has not been downloaded.
pub proof fn lemma_request_is_missing_block(pieces: Seq<PieceView>)
    requires
        forall|i: int| 0 <= i < pieces.len() ==> #[trigger] pieces[i].wf(),
        can_request(pieces),
    ensures
        block_request(pieces) matches Some(r) ==> {
            let k = first_incomplete(pieces);
            &&& is_first_incomplete(pieces, k)
            &&& r.0 == pieces[k].index
            &&& r.1 % BLOCK_SIZE == 0
            &&& r.2 == BLOCK_SIZE
            &&& r.1 + r.2 <= pieces[k].piece_length
            &&& !pieces[k].downloaded[(r.1 / BLOCK_SIZE) as int]
        },
{
    if !all_complete(pieces) {
        lemma_first_incomplete_exists(pieces);
        let k = first_incomplete(pieces);
        let p = pieces[k];
        assert(p.wf());
        lemma_first_missing_exists(p);
        let m = p.first_missing();
        let r = p.next_request();
        assert(r.1 == m * BLOCK_SIZE && r.1 % BLOCK_SIZE == 0 && r.1 / BLOCK_SIZE == m && r.1 + BLOCK_SIZE
            <= p.piece_length) by (nonlinear_arith)
            requires
                0 <= m < p.num_blocks(),
                p.num_blocks() == p.piece_length / BLOCK_SIZE,
                r.1 == (m * BLOCK_SIZE) as u64,
                BLOCK_SIZE == 16384,
        ;
    }
}

/// Download progress: once the block of the current request is stored, the
/// next request (if any) is for a later block of the same piece or for a
/// later piece.
pub proof fn lemma_torrent_progress(pieces: Seq<PieceView>, data: Seq<u8>)
    requires
        forall|i: int| 0 <= i < pieces.len() ==> #[trigger] pieces[i].wf(),
        !all_complete(pieces),
        can_request(pieces),
        data.len() == BLOCK_SIZE,
    ensures
        ({
            let k = first_incomplete(pieces);
            let r = pieces[k].next_request();
            let after = pieces.update(k, pieces[k].store(r.1, data));
            &&& pieces[k].can_store(r.1, data)
            &&& forall|i: int| 0 <= i < after.len() ==> #[trigger] after[i].wf()
            &&& after[k].downloaded[(r.1 / BLOCK_SIZE) as int]
            &&& after[k].data[(r.1 / BLOCK_SIZE) as int] == data
            &&& all_complete(after) || first_incomplete(after) > k || (first_incomplete(after) == k
                && after[k].next_request().1 > r.1)
        }),
{
    lemma_first_incomplete_exists(pieces);
    let k = first_incomplete(pieces);
    let p = pieces[k];
    assert(p.wf());
    lemma_request_progress(p, data);
    let r = p.next_request();
    let q = p.store(r.1, data);
    let after = pieces.update(k, q);
    assert forall|i: int| 0 <= i < after.len() implies #[trigger] after[i].wf() by {
        if i != k {
            assert(after[i] == pieces[i]);
        }
    }
    if !all_complete(after) {
        lemma_first_incomplete_exists(after);
        let m = first_incomplete(after);
        if m < k {
            assert(after[m] == pieces[m]);
            assert(pieces[m].complete);
        }
        if m == k {
            assert(!q.complete);
        }
    }
}

/// What the peer loop does after each message: only an unchoke, or a piece
/// while we are unchoked, asks for the next block; a bitfield is answered
/// with "interested"; every other message (choke, interested, not
/// interested, have, request, cancel, and a piece while choked) lets the
/// loop go on; no message stops it.
pub proof fn lemma_reply_actions(was_choked: bool, m: MessageView)
    ensures
        reply(was_choked, m) != PeerAction::Stop,
        reply(was_choked, m) == PeerAction::RequestNext <==> (m is UnChoke || (m is Piece && !was_choked)),
        reply(was_choked, m) == PeerAction::Send(Message::Interested) <==> m is Bitfield,
        (m is Choke || m is Interested || m is NotInterested || m is Have || m is Request || m is Cancel || (
        m is Piece && was_choked)) ==> reply(was_choked, m) == PeerAction::Continue,
{
}

} // verus!
