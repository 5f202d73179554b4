//! The content-addressed block store: blocks of DAG-CBOR bytes, each under the
//! CID of its Blake2b-256 hash.
//!
//! The store itself, the CBOR codec and the hash are the work of outside
//! crates. What this module believes of them is stated on the private wrappers
//! below; `BlockStore` and the rest of the library are proved from that.

use crate::errors::Error;
use cid::Cid;
use fvm_ipld_blockstore::MemoryBlockstore;
use fvm_ipld_encoding::CborStore;
use multihash_codetable::Code;
use vstd::prelude::*;

verus! {

#[verifier::external_type_specification]
#[verifier::external_body]
pub struct ExCid<const S: usize>(cid::CidGeneric<S>);

#[verifier::external_type_specification]
#[verifier::external_body]
pub struct ExMemoryBlockstore(MemoryBlockstore);

/// The multicodec number of plain CBOR.
pub const CBOR: u64 = 0x51;

/// The multicodec number of DAG-CBOR.
pub const DAG_CBOR: u64 = 0x71;

/// The blocks that a `MemoryBlockstore` holds, by CID.
pub uninterp spec fn store_blocks(store: MemoryBlockstore) -> Map<Cid, Seq<u8>>;

/// The DAG-CBOR encoding of a page: what `fvm_ipld_encoding::to_vec` gives for
/// a slice of bytes.
pub uninterp spec fn page_cbor(page: Seq<u8>) -> Seq<u8>;

/// The DAG-CBOR encoding of a bucket: what `fvm_ipld_encoding::to_vec` gives
/// for a slice of CIDs.
pub uninterp spec fn bucket_cbor(links: Seq<Cid>) -> Seq<u8>;

/// The CID of a DAG-CBOR block: what `Block::cid` gives for the block's bytes
/// under codec DAG-CBOR and hash Blake2b-256.
pub uninterp spec fn cbor_cid(block: Seq<u8>) -> Cid;

/// The codec number held in a CID: what `Cid::codec` returns.
pub uninterp spec fn cid_codec(cid: Cid) -> u64;

/// The page that a block decodes to: what `fvm_ipld_encoding::from_slice`
/// gives as a vector of bytes, `None` where it fails.
pub uninterp spec fn cbor_page(block: Seq<u8>) -> Option<Seq<u8>>;

/// The bucket that a block decodes to: what `fvm_ipld_encoding::from_slice`
/// gives as a vector of CIDs, `None` where it fails.
pub uninterp spec fn cbor_bucket(block: Seq<u8>) -> Option<Seq<Cid>>;

/// The store that holds nothing.
pub open spec fn no_blocks() -> Map<Cid, Seq<u8>> {
    Map::empty()
}

/// Whether a CID names a CBOR or DAG-CBOR block, the only ones read here.
pub open spec fn is_cbor(cid: Cid) -> bool {
    cid_codec(cid) == CBOR || cid_codec(cid) == DAG_CBOR
}

/// The CID under which a page is stored.
pub open spec fn page_link(page: Seq<u8>) -> Cid {
    cbor_cid(page_cbor(page))
}

/// The CID under which a bucket of links is stored.
pub open spec fn bucket_link(links: Seq<Cid>) -> Cid {
    cbor_cid(bucket_cbor(links))
}

/// The page found under `cid`, `None` where there is no such block or it is
/// no page.
pub open spec fn read_page(blocks: Map<Cid, Seq<u8>>, cid: Cid) -> Option<Seq<u8>> {
    if is_cbor(cid) && blocks.contains_key(cid) {
        cbor_page(blocks[cid])
    } else {
        None
    }
}

/// The bucket found under `cid`, `None` where there is no such block or it is
/// no bucket.
pub open spec fn read_bucket(blocks: Map<Cid, Seq<u8>>, cid: Cid) -> Option<Seq<Cid>> {
    if is_cbor(cid) && blocks.contains_key(cid) {
        cbor_bucket(blocks[cid])
    } else {
        None
    }
}

/// Every block of `before` is still in `after`, unchanged.
pub open spec fn extends(before: Map<Cid, Seq<u8>>, after: Map<Cid, Seq<u8>>) -> bool {
    forall|c: Cid| #[trigger] before.contains_key(c) ==> after.contains_key(c) && after[c] == before[c]
}

/// Whether writing `block` under `cid` replaces a different block: a hash
/// collision.
pub open spec fn collides(blocks: Map<Cid, Seq<u8>>, cid: Cid, block: Seq<u8>) -> bool {
    blocks.contains_key(cid) && blocks[cid] != block
}

/// `MemoryBlockstore::new`: a store without blocks.
#[verifier::external_body]
fn memory_new() -> (r: MemoryBlockstore)
    ensures
        store_blocks(r) == no_blocks(),
{
    MemoryBlockstore::new()
}

/// `CborStore::put_cbor` of a page on a `MemoryBlockstore`, with Blake2b-256.
/// It encodes the bytes, hashes the encoding into a DAG-CBOR CID and inserts
/// the encoding under that CID, replacing what was there; if the encoding
/// fails the store is untouched. Also claimed: decoding the encoding gives
/// the page back.
#[verifier::external_body]
fn put_page_cbor(store: &mut MemoryBlockstore, page: &[u8]) -> (r: Result<Cid, String>)
    ensures
        match r {
            Ok(c) => c == cbor_cid(page_cbor(page@)) && cid_codec(c) == DAG_CBOR && cbor_page(
                page_cbor(page@),
            ) == Some(page@) && store_blocks(*final(store)) == store_blocks(*old(store)).insert(
                c,
                page_cbor(page@),
            ),
            Err(_) => store_blocks(*final(store)) == store_blocks(*old(store)),
        },
{
    match store.put_cbor(&page, Code::Blake2b256) {
        Ok(c) => Ok(c),
        Err(e) => Err(e.to_string()),
    }
}

/// `CborStore::put_cbor` of a list of CIDs on a `MemoryBlockstore`, with
/// Blake2b-256: as for a page, with the encoding of a list of links.
#[verifier::external_body]
fn put_bucket_cbor(store: &mut MemoryBlockstore, links: &[Cid]) -> (r: Result<Cid, String>)
    ensures
        match r {
            Ok(c) => c == cbor_cid(bucket_cbor(links@)) && cid_codec(c) == DAG_CBOR && cbor_bucket(
                bucket_cbor(links@),
            ) == Some(links@) && store_blocks(*final(store)) == store_blocks(*old(store)).insert(
                c,
                bucket_cbor(links@),
            ),
            Err(_) => store_blocks(*final(store)) == store_blocks(*old(store)),
        },
{
    match store.put_cbor(&links, Code::Blake2b256) {
        Ok(c) => Ok(c),
        Err(e) => Err(e.to_string()),
    }
}

/// `CborStore::get_cbor` as a vector of bytes on a `MemoryBlockstore`. It
/// fails on a CID of another codec, returns `None` where the store has no such
/// block, and otherwise decodes the block, failing where the decoder does.
#[verifier::external_body]
fn get_page_cbor(store: &MemoryBlockstore, cid: &Cid) -> (r: Result<Option<Vec<u8>>, String>)
    ensures
        match r {
            Ok(Some(page)) => is_cbor(*cid) && store_blocks(*store).contains_key(*cid)
                && cbor_page(store_blocks(*store)[*cid]) == Some(page@),
            Ok(None) => is_cbor(*cid) && !store_blocks(*store).contains_key(*cid),
            Err(_) => !is_cbor(*cid) || (store_blocks(*store).contains_key(*cid) && cbor_page(
                store_blocks(*store)[*cid],
            ) is None),
        },
{
    match store.get_cbor::<Vec<u8>>(cid) {
        Ok(page) => Ok(page),
        Err(e) => Err(e.to_string()),
    }
}

/// `CborStore::get_cbor` as a vector of CIDs on a `MemoryBlockstore`: as for
/// a page, with the decoder of a list of links.
#[verifier::external_body]
fn get_bucket_cbor(store: &MemoryBlockstore, cid: &Cid) -> (r: Result<Option<Vec<Cid>>, String>)
    ensures
        match r {
            Ok(Some(links)) => is_cbor(*cid) && store_blocks(*store).contains_key(*cid)
                && cbor_bucket(store_blocks(*store)[*cid]) == Some(links@),
            Ok(None) => is_cbor(*cid) && !store_blocks(*store).contains_key(*cid),
            Err(_) => !is_cbor(*cid) || (store_blocks(*store).contains_key(*cid) && cbor_bucket(
                store_blocks(*store)[*cid],
            ) is None),
        },
{
    match store.get_cbor::<Vec<Cid>>(cid) {
        Ok(links) => Ok(links),
        Err(e) => Err(e.to_string()),
    }
}

/// The message for a block that the store does not hold, with the CID as
/// `Cid`'s `to_string` writes it; nothing is claimed of the text.
#[verifier::external_body]
fn missing_text(cid: &Cid) -> (r: String) {
    format!("failed to get {} from store", cid.to_string())
}

/// A content-addressed store of pages and buckets, with a record of what has
/// happened to it: how often it was read, and whether a write ever replaced a
/// block by a different one under the same CID.
///
/// The page tree is proved against this interface. `BlockStore` meets it; of
/// a store implemented elsewhere the proofs hold as far as that store does
/// what the methods promise. The three views are left open here: a store
/// that is verified says what they are, as `BlockStore` does.
pub trait Cas: Sized {
    /// The blocks held, by CID.
    open spec fn blocks(&self) -> Map<Cid, Seq<u8>> {
        arbitrary()
    }

    /// Whether some write to this store has replaced a block by a different
    /// one: two blocks had the same hash.
    open spec fn collided(&self) -> bool {
        arbitrary()
    }

    /// The number of reads made of this store.
    open spec fn reads(&self) -> nat {
        arbitrary()
    }

    /// Stores a page and returns its CID. On success the page's encoding
    /// stands under that CID and reads back as the page; a failure leaves the
    /// store as it was.
    fn put_page(&mut self, page: &[u8]) -> (r: Result<Cid, Error>)
        ensures
            final(self).reads() == old(self).reads(),
            !final(self).collided() ==> extends(old(self).blocks(), final(self).blocks()),
            match r {
                Ok(c) => {
                    &&& c == page_link(page@)
                    &&& final(self).blocks() == old(self).blocks().insert(c, page_cbor(page@))
                    &&& final(self).collided() == (old(self).collided() || collides(
                        old(self).blocks(),
                        c,
                        page_cbor(page@),
                    ))
                    &&& read_page(final(self).blocks(), c) == Some(page@)
                },
                Err(e) => {
                    &&& e is Passthrough
                    &&& final(self).blocks() == old(self).blocks()
                    &&& final(self).collided() == old(self).collided()
                },
            },
    ;

    /// Stores a bucket of links and returns its CID. On success the bucket's
    /// encoding stands under that CID and reads back as the bucket; a failure
    /// leaves the store as it was.
    fn put_bucket(&mut self, links: &[Cid]) -> (r: Result<Cid, Error>)
        ensures
            final(self).reads() == old(self).reads(),
            !final(self).collided() ==> extends(old(self).blocks(), final(self).blocks()),
            match r {
                Ok(c) => {
                    &&& c == bucket_link(links@)
                    &&& final(self).blocks() == old(self).blocks().insert(c, bucket_cbor(links@))
                    &&& final(self).collided() == (old(self).collided() || collides(
                        old(self).blocks(),
                        c,
                        bucket_cbor(links@),
                    ))
                    &&& read_bucket(final(self).blocks(), c) == Some(links@)
                },
                Err(e) => {
                    &&& e is Passthrough
                    &&& final(self).blocks() == old(self).blocks()
                    &&& final(self).collided() == old(self).collided()
                },
            },
    ;

    /// Reads the page under `cid`: the page that `read_page` names, or a
    /// failure where it names none. Counts as one read either way.
    fn get_page(&mut self, cid: &Cid) -> (r: Result<Vec<u8>, Error>)
        ensures
            final(self).blocks() == old(self).blocks(),
            final(self).collided() == old(self).collided(),
            final(self).reads() == old(self).reads() + 1,
            match read_page(old(self).blocks(), *cid) {
                Some(page) => r matches Ok(v) && v@ == page,
                None => r matches Err(e) && e is Passthrough,
            },
    ;

    /// Reads the bucket under `cid`: the links that `read_bucket` names, or
    /// a failure where it names none. Counts as one read either way.
    fn get_bucket(&mut self, cid: &Cid) -> (r: Result<Vec<Cid>, Error>)
        ensures
            final(self).blocks() == old(self).blocks(),
            final(self).collided() == old(self).collided(),
            final(self).reads() == old(self).reads() + 1,
            match read_bucket(old(self).blocks(), *cid) {
                Some(links) => r matches Ok(v) && v@ == links,
                None => r matches Err(e) && e is Passthrough,
            },
    ;
}

/// How a store relates to an earlier state of itself: no CID is lost, a
/// collision once seen stays on record, short of one no block is changed,
/// and the reads are counted on.
pub open spec fn follows<S: Cas>(after: &S, before: &S) -> bool {
    &&& forall|c: Cid| #[trigger] before.blocks().contains_key(c) ==> after.blocks().contains_key(c)
    &&& before.collided() ==> after.collided()
    &&& !after.collided() ==> extends(before.blocks(), after.blocks())
    &&& before.reads() <= after.reads()
}

/// Every CID that `after` holds and `before` does not is one of `written`:
/// nothing else went into the store.
pub open spec fn writes_within(
    before: Map<Cid, Seq<u8>>,
    after: Map<Cid, Seq<u8>>,
    written: Set<Cid>,
) -> bool {
    forall|c: Cid| #[trigger]
        after.contains_key(c) ==> before.contains_key(c) || written.contains(c)
}

/// The store holds a block under every CID of `written`.
pub open spec fn wrote_all(after: Map<Cid, Seq<u8>>, written: Set<Cid>) -> bool {
    forall|c: Cid| #[trigger] written.contains(c) ==> after.contains_key(c)
}

/// A store follows itself.
pub proof fn lemma_follows_refl<S: Cas>(a: &S)
    ensures
        follows(a, a),
{
}

/// Following is transitive.
pub proof fn lemma_follows_trans<S: Cas>(a: &S, b: &S, c: &S)
    requires
        follows(b, a),
        follows(c, b),
    ensures
        follows(c, a),
{
}

/// A block store in memory.
pub struct BlockStore {
    inner: MemoryBlockstore,
    collided: Ghost<bool>,
    reads: Ghost<nat>,
}

impl BlockStore {
    /// A store without blocks.
    pub fn new() -> (r: BlockStore)
        ensures
            r.blocks() == no_blocks(),
            !r.collided(),
            r.reads() == 0,
    {
        BlockStore { inner: memory_new(), collided: Ghost(false), reads: Ghost(0) }
    }

    /// Takes over a store; its record starts here.
    pub fn from_memory(inner: MemoryBlockstore) -> (r: BlockStore)
        ensures
            r.blocks() == store_blocks(inner),
            !r.collided(),
            r.reads() == 0,
    {
        BlockStore { inner, collided: Ghost(false), reads: Ghost(0) }
    }

    /// Hands the store out.
    pub fn into_memory(self) -> (r: MemoryBlockstore)
        ensures
            store_blocks(r) == self.blocks(),
    {
        self.inner
    }
}

impl Cas for BlockStore {
    closed spec fn blocks(&self) -> Map<Cid, Seq<u8>> {
        store_blocks(self.inner)
    }

    closed spec fn collided(&self) -> bool {
        self.collided@
    }

    closed spec fn reads(&self) -> nat {
        self.reads@
    }

    fn put_page(&mut self, page: &[u8]) -> (r: Result<Cid, Error>) {
        let ghost before = self.blocks();
        let r = put_page_cbor(&mut self.inner, page);
        let ghost hit = r matches Ok(c) && collides(before, c, page_cbor(page@));
        let ghost seen = self.collided@;
        proof {
            self.collided@ = seen || hit;
        }
        match r {
            Ok(c) => Ok(c),
            Err(e) => Err(Error::Passthrough(e)),
        }
    }

    fn put_bucket(&mut self, links: &[Cid]) -> (r: Result<Cid, Error>) {
        let ghost before = self.blocks();
        let r = put_bucket_cbor(&mut self.inner, links);
        let ghost hit = r matches Ok(c) && collides(before, c, bucket_cbor(links@));
        let ghost seen = self.collided@;
        proof {
            self.collided@ = seen || hit;
        }
        match r {
            Ok(c) => Ok(c),
            Err(e) => Err(Error::Passthrough(e)),
        }
    }

    fn get_page(&mut self, cid: &Cid) -> (r: Result<Vec<u8>, Error>) {
        proof {
            self.reads@ = self.reads@ + 1;
        }
        match get_page_cbor(&self.inner, cid) {
            Ok(Some(page)) => Ok(page),
            Ok(None) => Err(Error::Passthrough(missing_text(cid))),
            Err(e) => Err(Error::Passthrough(e)),
        }
    }

    fn get_bucket(&mut self, cid: &Cid) -> (r: Result<Vec<Cid>, Error>) {
        proof {
            self.reads@ = self.reads@ + 1;
        }
        match get_bucket_cbor(&self.inner, cid) {
            Ok(Some(links)) => Ok(links),
            Ok(None) => Err(Error::Passthrough(missing_text(cid))),
            Err(e) => Err(Error::Passthrough(e)),
        }
    }
}

/// A page that reads from a store reads the same from every store that
/// extends it. So does a bucket.
pub proof fn lemma_read_extends(before: Map<Cid, Seq<u8>>, after: Map<Cid, Seq<u8>>, cid: Cid)
    requires
        extends(before, after),
    ensures
        read_page(before, cid) is Some ==> read_page(after, cid) == read_page(before, cid),
        read_bucket(before, cid) is Some ==> read_bucket(after, cid) == read_bucket(before, cid),
{
    if before.contains_key(cid) {
        assert(after[cid] == before[cid]);
    }
}

} // verus!
