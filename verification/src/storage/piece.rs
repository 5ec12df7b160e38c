use vstd::prelude::*;

verus! {

/// The size of the blocks that a piece is downloaded in.
pub const BLOCK_SIZE: u64 = 16384;

/// Every flag of `downloaded` is set.
pub open spec fn all_present(downloaded: Seq<bool>) -> bool {
    forall|i: int| 0 <= i < downloaded.len() ==> #[trigger] downloaded[i]
}

/// The mathematical content of a [`Piece`]: its length, index and hash, the
/// data held for each block, which blocks have been downloaded, the blocks
/// requested so far and whether it is complete.
pub struct PieceView {
    pub piece_length: u64,
    pub index: u32,
    pub hash: Seq<u8>,
    pub data: Seq<Seq<u8>>,
    pub downloaded: Seq<bool>,
    pub requested: Seq<u32>,
    pub complete: bool,
}

impl PieceView {
    /// A fresh piece: `length / BLOCK_SIZE` empty blocks, none downloaded,
    /// none requested, not complete.
    pub open spec fn fresh(length: u64, index: u32, hash: Seq<u8>) -> PieceView {
        PieceView {
            piece_length: length,
            index,
            hash,
            data: Seq::new((length / BLOCK_SIZE) as nat, |i: int| Seq::<u8>::empty()),
            downloaded: Seq::new((length / BLOCK_SIZE) as nat, |i: int| false),
            requested: Seq::empty(),
            complete: false,
        }
    }

    /// The number of blocks.
    pub open spec fn num_blocks(self) -> nat {
        self.downloaded.len()
    }

    /// The invariant of a piece: one block per whole `BLOCK_SIZE` of its
    /// length; a downloaded block holds `BLOCK_SIZE` bytes and a missing one
    /// holds none; no block is recorded as requested; a complete piece has
    /// all its blocks, and a piece with blocks that has all of them is
    /// complete.
    pub open spec fn wf(self) -> bool {
        &&& self.downloaded.len() == self.piece_length / BLOCK_SIZE
        &&& self.data.len() == self.downloaded.len()
        &&& forall|i: int|
            0 <= i < self.downloaded.len() ==> (#[trigger] self.data[i]).len() == if self.downloaded[i] {
                BLOCK_SIZE as int
            } else {
                0
            }
        &&& self.requested.len() == 0
        &&& self.complete ==> all_present(self.downloaded)
        &&& (self.downloaded.len() > 0 && all_present(self.downloaded)) ==> self.complete
    }

    /// A block of `data` may be stored at `offset`: a block-sized `data`
    /// must fall in one of the piece's blocks.
    pub open spec fn can_store(self, offset: u64, data: Seq<u8>) -> bool {
        data.len() == BLOCK_SIZE ==> offset / BLOCK_SIZE < self.num_blocks()
    }

    /// The piece after storing `data` at `offset`: a block-sized `data`
    /// fills block `offset / BLOCK_SIZE` and marks it downloaded (other data
    /// is dropped and changes no block), and the piece becomes complete once
    /// all its blocks are present.
    pub open spec fn store(self, offset: u64, data: Seq<u8>) -> PieceView {
        let k = (offset / BLOCK_SIZE) as int;
        let stored = data.len() == BLOCK_SIZE;
        let downloaded = if stored {
            self.downloaded.update(k, true)
        } else {
            self.downloaded
        };
        PieceView {
            piece_length: self.piece_length,
            index: self.index,
            hash: self.hash,
            data: if stored {
                self.data.update(k, data)
            } else {
                self.data
            },
            downloaded,
            requested: self.requested,
            complete: self.complete || all_present(downloaded),
        }
    }

    /// Block `i` is missing and every block before it is present.
    pub open spec fn is_first_missing(self, i: int) -> bool {
        &&& 0 <= i < self.downloaded.len()
        &&& !self.downloaded[i]
        &&& forall|j: int| 0 <= j < i ==> #[trigger] self.downloaded[j]
    }

    /// The first missing block.
    pub open spec fn first_missing(self) -> int {
        choose|i: int| self.is_first_missing(i)
    }

    /// The request for the first missing block: the piece's index, the
    /// block's offset and the block size.
    pub open spec fn next_request(self) -> (u32, u64, u64) {
        (self.index, (self.first_missing() * BLOCK_SIZE) as u64, BLOCK_SIZE)
    }
}

/// A piece of the torrent, downloaded block by block.
#[derive(Debug)]
pub struct Piece {
    pub piece_length: u64,
    data_blocks: Vec<Vec<u8>>,
    blocks_downloaded: Vec<bool>,
    requested_blocks_index: Vec<u32>,
    is_complete: bool,
    hash: Vec<u8>,
    pub index: u32,
}

impl View for Piece {
    type V = PieceView;

    closed spec fn view(&self) -> PieceView {
        PieceView {
            piece_length: self.piece_length,
            index: self.index,
            hash: self.hash@,
            data: self.data_blocks@.map_values(|b: Vec<u8>| b@),
            downloaded: self.blocks_downloaded@,
            requested: self.requested_blocks_index@,
            complete: self.is_complete,
        }
    }
}

/// Some missing block exists when a piece with blocks is not complete.
pub proof fn lemma_first_missing_exists(p: PieceView)
    requires
        p.wf(),
        !p.complete,
        p.num_blocks() > 0,
    ensures
        p.is_first_missing(p.first_missing()),
{
    let k = choose|k: int| 0 <= k < p.downloaded.len() && !(#[trigger] p.downloaded[k]);
    lemma_least_missing(p, k);
}

proof fn lemma_least_missing(p: PieceView, k: int)
    requires
        0 <= k < p.downloaded.len(),
        !p.downloaded[k],
    ensures
        exists|i: int| p.is_first_missing(i),
    decreases k,
{
    if forall|j: int| 0 <= j < k ==> #[trigger] p.downloaded[j] {
        assert(p.is_first_missing(k));
    } else {
        let j = choose|j: int| 0 <= j < k && !(#[trigger] p.downloaded[j]);
        lemma_least_missing(p, j);
    }
}

/// Storing a block keeps a piece well formed, and a complete piece stays
/// complete.
pub proof fn lemma_store_wf(p: PieceView, offset: u64, data: Seq<u8>)
    requires
        p.wf(),
        p.can_store(offset, data),
    ensures
        p.store(offset, data).wf(),
        p.complete ==> p.store(offset, data).complete,
{
    let q = p.store(offset, data);
    if p.complete {
        assert(all_present(q.downloaded)) by {
            assert forall|i: int| 0 <= i < q.downloaded.len() implies #[trigger] q.downloaded[i] by {
                assert(p.downloaded[i]);
            }
        }
    }
}

impl Piece {
    /// The invariant of a piece (see [`PieceView::wf`]).
    pub open spec fn wf(&self) -> bool {
        self@.wf()
    }

    /// A piece of `length` bytes with no block downloaded yet.
    pub fn new(length: u64, index: u32, hash: Vec<u8>) -> (p: Piece)
        requires
            length / BLOCK_SIZE <= usize::MAX,
        ensures
            p.wf(),
            p@ == PieceView::fresh(length, index, hash@),
    {
        let num_blocks = length / BLOCK_SIZE;
        let n = num_blocks as usize;
        let mut data_blocks: Vec<Vec<u8>> = Vec::new();
        let mut blocks_downloaded: Vec<bool> = Vec::new();
        let mut k: usize = 0;
        while k < n
            invariant
                k <= n,
                data_blocks@.len() == k,
                forall|i: int| 0 <= i < k ==> (#[trigger] data_blocks@[i])@ == Seq::<u8>::empty(),
                blocks_downloaded@ == Seq::new(k as nat, |i: int| false),
            decreases n - k,
        {
            data_blocks.push(Vec::new());
            blocks_downloaded.push(false);
            k = k + 1;
            assert(blocks_downloaded@ =~= Seq::new(k as nat, |i: int| false));
        }
        assert(data_blocks@.map_values(|b: Vec<u8>| b@) =~= Seq::new(n as nat, |i: int| Seq::<u8>::empty()));
        let p = Piece {
            piece_length: length,
            data_blocks,
            blocks_downloaded,
            requested_blocks_index: Vec::new(),
            is_complete: false,
            hash,
            index,
        };
        assert(p@ =~= PieceView::fresh(length, index, hash@));
        if n > 0 {
            assert(!p@.downloaded[0]);
        }
        p
    }

    /// The number of blocks of the piece.
    pub fn num_blocks(&self) -> (n: usize)
        requires
            self.wf(),
        ensures
            n == self@.num_blocks(),
    {
        self.blocks_downloaded.len()
    }

    /// Whether every block of the piece has been stored.
    pub fn is_complete(&self) -> (c: bool)
        ensures
            c == self@.complete,
    {
        self.is_complete
    }

    /// Stores a downloaded block at `offset` (only block-sized data is
    /// kept) and marks the piece complete once all its blocks are present.
    #[verifier::loop_isolation(false)]
    pub fn store_data(&mut self, offset: u64, data: Vec<u8>)
        requires
            old(self).wf(),
            old(self)@.can_store(offset, data@),
        ensures
            final(self).wf(),
            final(self)@ == old(self)@.store(offset, data@),
            old(self)@.complete ==> final(self)@.complete,
    {
        let ghost data_view = data@;
        if data.len() == BLOCK_SIZE as usize {
            let block_index = offset / BLOCK_SIZE;
            self.data_blocks.set(block_index as usize, data);
            self.blocks_downloaded.set(block_index as usize, true);
        }
        proof {
            lemma_store_wf(old(self)@, offset, data_view);
        }
        assert(self@.data =~= old(self)@.store(offset, data_view).data);
        assert(self@.downloaded =~= old(self)@.store(offset, data_view).downloaded);
        let n = self.blocks_downloaded.len();
        let mut i: usize = 0;
        while i < n
            invariant
                n == self.blocks_downloaded@.len(),
                i <= n,
                forall|j: int| 0 <= j < i ==> #[trigger] self.blocks_downloaded@[j],
            decreases n - i,
        {
            if !self.blocks_downloaded[i] {
                return;
            }
            i = i + 1;
        }
        self.is_complete = true;
        proof {
            assert(all_present(self@.downloaded)) by {
                assert forall|j: int| 0 <= j < self@.downloaded.len() implies #[trigger] self@.downloaded[j] by {
                    assert(self.blocks_downloaded@[j]);
                }
            }
        }
    }

    /// The request for the first block that is still missing: the piece's
    /// index, the block's offset and its size.
    #[verifier::loop_isolation(false)]
    pub fn get_next_block_request(&self) -> (r: (u32, u64, u64))
        requires
            self.wf(),
            !self@.complete,
            self@.num_blocks() > 0,
        ensures
            r == self@.next_request(),
            self@.is_first_missing((r.1 / BLOCK_SIZE) as int),
            r.1 % BLOCK_SIZE == 0,
            r.2 == BLOCK_SIZE,
            r.1 + r.2 <= self@.piece_length,
    {
        proof {
            lemma_first_missing_exists(self@);
        }
        let ghost target = self@.first_missing();
        let n = self.blocks_downloaded.len();
        let mut i: usize = 0;
        while i < n
            invariant
                n == self.blocks_downloaded@.len(),
                0 <= i <= target,
                self@.is_first_missing(target),
                forall|j: int| 0 <= j < i ==> #[trigger] self.blocks_downloaded@[j],
            decreases n - i,
        {
            if !self.blocks_downloaded[i] {
                assert(i == target) by {
                    if i < target {
                        assert(self@.downloaded[i as int]);
                    }
                }
                let len = self.piece_length;
                assert((i + 1) * BLOCK_SIZE <= len) by (nonlinear_arith)
                    requires
                        i < n,
                        n == len / BLOCK_SIZE,
                        BLOCK_SIZE == 16384,
                ;
                let offset = (i as u64) * BLOCK_SIZE;
                assert(offset / BLOCK_SIZE == i && offset % BLOCK_SIZE == 0) by (nonlinear_arith)
                    requires
                        offset == i * BLOCK_SIZE,
                        BLOCK_SIZE == 16384,
                ;
                return (self.index, offset, BLOCK_SIZE);
            }
            i = i + 1;
        }
        assert(self.blocks_downloaded@[target]);
        assert(false);
        (self.index, 0, BLOCK_SIZE)
    }
}

/// The invariant of every piece built by [`Piece::new`] and kept by
/// [`Piece::store_data`]: one block per whole `BLOCK_SIZE` of the piece,
/// data only in downloaded blocks, no recorded requests, and a complete
/// piece has all its blocks.
pub proof fn lemma_piece_invariant(p: &Piece)
    requires
        p.wf(),
    ensures
        p@.num_blocks() == p@.piece_length / BLOCK_SIZE,
        p@.data.len() == p@.num_blocks(),
        forall|i: int| 0 <= i < p@.num_blocks() && !p@.downloaded[i] ==> #[trigger] p@.data[i].len() == 0,
        p@.requested.len() == 0,
        p@.complete ==> forall|i: int| 0 <= i < p@.num_blocks() ==> #[trigger] p@.downloaded[i],
{
    assert forall|i: int| 0 <= i < p@.num_blocks() && !p@.downloaded[i] implies #[trigger] p@.data[i].len() == 0 by {
        assert(p@.data[i].len() == if p@.downloaded[i] { BLOCK_SIZE as int } else { 0 });
    }
}

/// Progress: after the requested block is stored, the piece is complete or
/// its next request lies strictly after the previous one.
pub proof fn lemma_request_progress(p: PieceView, data: Seq<u8>)
    requires
        p.wf(),
        !p.complete,
        p.num_blocks() > 0,
        data.len() == BLOCK_SIZE,
    ensures
        ({
            let r = p.next_request();
            let q = p.store(r.1, data);
            &&& p.can_store(r.1, data)
            &&& q.wf()
            &&& q.downloaded[(r.1 / BLOCK_SIZE) as int]
            &&& q.data[(r.1 / BLOCK_SIZE) as int] == data
            &&& !q.complete ==> q.next_request().1 > r.1
        }),
{
    lemma_first_missing_exists(p);
    let k = p.first_missing();
    let r = p.next_request();
    assert(r.1 == k * BLOCK_SIZE && r.1 / BLOCK_SIZE == k) by (nonlinear_arith)
        requires
            0 <= k < p.num_blocks(),
            p.num_blocks() == p.piece_length / BLOCK_SIZE,
            r.1 == (k * BLOCK_SIZE) as u64,
            BLOCK_SIZE == 16384,
    ;
    let q = p.store(r.1, data);
    lemma_store_wf(p, r.1, data);
    if !q.complete {
        lemma_first_missing_exists(q);
        let m = q.first_missing();
        assert(m > k) by {
            if m < k {
                assert(p.downloaded[m]);
            }
        }
        assert(q.next_request().1 > r.1) by (nonlinear_arith)
            requires
                m > k,
                k >= 0,
                m < q.num_blocks(),
                q.num_blocks() == q.piece_length / BLOCK_SIZE,
                q.next_request().1 == (m * BLOCK_SIZE) as u64,
                r.1 == k * BLOCK_SIZE,
                BLOCK_SIZE == 16384,
        ;
    }
}

/// Reading back a stored block: after a block-sized `data` is stored at
/// `offset`, that block is downloaded and holds `data`, and every other
/// block is unchanged; data of another size changes no block.
pub proof fn lemma_store_read_back(p: PieceView, offset: u64, data: Seq<u8>)
    requires
        p.wf(),
        p.can_store(offset, data),
    ensures
        ({
            let q = p.store(offset, data);
            let k = (offset / BLOCK_SIZE) as int;
            &&& q.num_blocks() == p.num_blocks()
            &&& q.piece_length == p.piece_length
            &&& q.index == p.index
            &&& q.hash == p.hash
            &&& q.requested == p.requested
            &&& data.len() == BLOCK_SIZE ==> q.downloaded[k] && q.data[k] == data
            &&& data.len() != BLOCK_SIZE ==> q.downloaded == p.downloaded && q.data == p.data
            &&& forall|i: int|
                0 <= i < p.num_blocks() && i != k ==> #[trigger] q.downloaded[i] == p.downloaded[i]
                    && q.data[i] == p.data[i]
        }),
{
}

} // verus!
