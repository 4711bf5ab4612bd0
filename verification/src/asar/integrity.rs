//! SHA256 integrity metadata in Electron's asar format:
//! - `hash`: SHA256 of the entire file, hex-encoded;
//! - `blocks[i]`: SHA256 of the i-th 4 MiB chunk, hex-encoded;
//! - an empty file has one block, the hash of no bytes.

use vstd::prelude::*;

use super::hex::{hex, hex_spec};
use super::json::{aview, jview, mview, Json, JsonNumber, JsonValue};
use crate::text::{owned, push_char};
use super::BLOCK_SIZE;

verus! {

/// An incremental SHA256 computation (`sha2::Sha256`).
#[verifier::external_body]
pub struct Sha256Hasher {
    inner: sha2::Sha256,
}

/// The bytes fed so far to the hasher `h`.
pub uninterp spec fn sha256_fed(h: Sha256Hasher) -> Seq<u8>;

/// The SHA256 digest of `data`.
pub uninterp spec fn sha256(data: Seq<u8>) -> Seq<u8>;

/// `sha2::Sha256::new` (`Digest::new`): a hasher that has been fed nothing.
#[verifier::external_body]
fn sha256_new() -> (h: Sha256Hasher)
    ensures
        sha256_fed(h) == Seq::<u8>::empty(),
{
    Sha256Hasher { inner: <sha2::Sha256 as sha2::Digest>::new() }
}

/// `Digest::update`: feeds `data` after what was fed before.
#[verifier::external_body]
fn sha256_update(h: &mut Sha256Hasher, data: &[u8])
    ensures
        sha256_fed(*final(h)) == sha256_fed(*old(h)) + data@,
{
    sha2::Digest::update(&mut h.inner, data)
}

/// `Digest::finalize`: the 32-byte digest of everything fed.
#[verifier::external_body]
fn sha256_finalize(h: Sha256Hasher) -> (d: Vec<u8>)
    ensures
        d@ == sha256(sha256_fed(h)),
        d@.len() == 32,
{
    sha2::Digest::finalize(h.inner).to_vec()
}

/// Number of integrity blocks for a file of `n` bytes: at least one.
pub open spec fn block_count(n: int) -> int {
    if n == 0 {
        1
    } else {
        (n + BLOCK_SIZE - 1) / (BLOCK_SIZE as int)
    }
}

/// The bytes of block `i` of `data`.
pub open spec fn chunk(data: Seq<u8>, i: int) -> Seq<u8> {
    let end = if (i + 1) * BLOCK_SIZE <= data.len() {
        (i + 1) * BLOCK_SIZE
    } else {
        data.len() as int
    };
    data.subrange(i * BLOCK_SIZE, end)
}

/// The hex SHA256 of each block of `data`.
pub open spec fn block_hashes(data: Seq<u8>) -> Seq<Seq<char>> {
    Seq::new(block_count(data.len() as int) as nat, |i: int| hex_spec(sha256(chunk(data, i))))
}

/// Integrity metadata of one file.
pub struct Integrity {
    pub hash: String,
    pub blocks: Vec<String>,
}

/// The integrity metadata of `data`.
pub open spec fn integrity_of(i: Integrity, data: Seq<u8>) -> bool {
    &&& i.hash@ == hex_spec(sha256(data))
    &&& i.hash@.len() == 64
    &&& i.blocks@.len() == block_count(data.len() as int)
    &&& forall|k: int| 0 <= k < i.blocks@.len() ==> (#[trigger] i.blocks@[k])@.len() == 64
    &&& forall|k: int| 0 <= k < i.blocks@.len() ==> #[trigger] i.blocks@[k]@ == block_hashes(data)[k]
}

/// Computes integrity metadata while a file streams through.
pub struct IntegrityHasher {
    whole: Sha256Hasher,
    block: Sha256Hasher,
    block_filled: usize,
    blocks: Vec<String>,
    fed: Ghost<Seq<u8>>,
}

impl IntegrityHasher {
    /// The bytes fed so far.
    pub closed spec fn fed(&self) -> Seq<u8> {
        self.fed@
    }

    pub closed spec fn wf(&self) -> bool {
        let d = self.fed@;
        let nb = self.blocks@.len();
        &&& sha256_fed(self.whole) == d
        &&& self.block_filled < BLOCK_SIZE
        &&& d.len() == nb * BLOCK_SIZE + self.block_filled
        &&& sha256_fed(self.block) == d.subrange(nb * BLOCK_SIZE, d.len() as int)
        &&& forall|k: int|
            0 <= k < nb ==> #[trigger] self.blocks@[k]@ == hex_spec(
                sha256(d.subrange(k * BLOCK_SIZE, (k + 1) * BLOCK_SIZE)),
            )
        &&& forall|k: int| 0 <= k < nb ==> (#[trigger] self.blocks@[k])@.len() == 64
    }

    /// A hasher that has been fed nothing.
    pub fn new() -> (h: Self)
        ensures
            h.wf(),
            h.fed() == Seq::<u8>::empty(),
    {
        let h = IntegrityHasher {
            whole: sha256_new(),
            block: sha256_new(),
            block_filled: 0,
            blocks: Vec::new(),
            fed: Ghost(Seq::empty()),
        };
        assert(h.fed@.subrange(0, 0) =~= Seq::<u8>::empty());
        h
    }

    /// Feeds `data` after what was fed before.
    pub fn update(&mut self, data: &[u8])
        requires
            old(self).wf(),
        ensures
            final(self).wf(),
            final(self).fed() == old(self).fed() + data@,
    {
        let ghost d0 = self.fed@;
        sha256_update(&mut self.whole, data);
        let mut pos: usize = 0;
        self.fed = Ghost(d0);
        while pos < data.len()
            invariant
                pos <= data@.len(),
                sha256_fed(self.whole) == d0 + data@,
                self.fed@ == d0 + data@.take(pos as int),
                self.block_filled < BLOCK_SIZE,
                self.fed@.len() == self.blocks@.len() * BLOCK_SIZE + self.block_filled,
                sha256_fed(self.block) == self.fed@.subrange(
                    self.blocks@.len() * BLOCK_SIZE,
                    self.fed@.len() as int,
                ),
                forall|k: int|
                    0 <= k < self.blocks@.len() ==> #[trigger] self.blocks@[k]@ == hex_spec(
                        sha256(self.fed@.subrange(k * BLOCK_SIZE, (k + 1) * BLOCK_SIZE)),
                    ),
                forall|k: int| 0 <= k < self.blocks@.len() ==> (#[trigger] self.blocks@[k])@.len() == 64,
            decreases data@.len() - pos,
        {
            let room = BLOCK_SIZE - self.block_filled;
            let left = data.len() - pos;
            let take = if room < left { room } else { left };
            let piece = vstd::slice::slice_subrange(data, pos, pos + take);
            let ghost before = self.fed@;
            sha256_update(&mut self.block, piece);
            self.block_filled = self.block_filled + take;
            pos = pos + take;
            self.fed = Ghost(d0 + data@.take(pos as int));
            proof {
                let now = self.fed@;
                assert(now =~= before + piece@);
                let nb = self.blocks@.len();
                assert(now.subrange(nb * BLOCK_SIZE, now.len() as int) =~= before.subrange(
                    nb * BLOCK_SIZE,
                    before.len() as int,
                ) + piece@);
                assert forall|k: int| 0 <= k < nb implies #[trigger] now.subrange(
                    k * BLOCK_SIZE,
                    (k + 1) * BLOCK_SIZE,
                ) =~= before.subrange(k * BLOCK_SIZE, (k + 1) * BLOCK_SIZE) by {
                    assert((k + 1) * BLOCK_SIZE <= nb * BLOCK_SIZE) by (nonlinear_arith)
                        requires
                            k + 1 <= nb,
                    ;
                }
            }
            if self.block_filled == BLOCK_SIZE {
                let mut done = sha256_new();
                std::mem::swap(&mut self.block, &mut done);
                let digest = sha256_finalize(done);
                let ghost nb = self.blocks@.len();
                self.blocks.push(hex(digest.as_slice()));
                self.block_filled = 0;
                proof {
                    let now = self.fed@;
                    assert((nb + 1) * BLOCK_SIZE == nb * BLOCK_SIZE + BLOCK_SIZE);
                    assert(now.subrange(
                        (nb + 1) * BLOCK_SIZE,
                        now.len() as int,
                    ) =~= Seq::<u8>::empty());
                }
            }
        }
        assert(data@.take(data@.len() as int) =~= data@);
    }

    /// The integrity metadata of everything fed.
    pub fn finalize(self) -> (r: Integrity)
        requires
            self.wf(),
        ensures
            integrity_of(r, self.fed()),
    {
        let IntegrityHasher { whole, block, block_filled, mut blocks, fed } = self;
        let ghost d = fed@;
        let ghost nb = blocks@.len();
        if block_filled > 0 || blocks.len() == 0 {
            let digest = sha256_finalize(block);
            blocks.push(hex(digest.as_slice()));
        }
        let hash = hex(sha256_finalize(whole).as_slice());
        proof {
            if block_filled > 0 {
                assert(block_count(d.len() as int) == nb + 1) by (nonlinear_arith)
                    requires
                        d.len() == nb * BLOCK_SIZE + block_filled,
                        0 < block_filled < BLOCK_SIZE,
                        BLOCK_SIZE == 4194304,
                ;
            } else if nb == 0 {
            } else {
                assert(block_count(d.len() as int) == nb) by (nonlinear_arith)
                    requires
                        d.len() == nb * BLOCK_SIZE,
                        nb > 0,
                        BLOCK_SIZE == 4194304,
                ;
            }
            assert forall|k: int| 0 <= k < blocks@.len() implies #[trigger] blocks@[k]@
                == block_hashes(d)[k] by {
                if k < nb {
                    assert((k + 1) * BLOCK_SIZE <= d.len()) by (nonlinear_arith)
                        requires
                            k + 1 <= nb,
                            d.len() >= nb * BLOCK_SIZE,
                    ;
                }
            }
        }
        Integrity { hash, blocks }
    }
}

/// Sixty-four `'0'` characters: a hex SHA256 of the right length.
pub open spec fn zero_hash() -> Seq<char> {
    Seq::new(64, |i: int| '0')
}

/// The integrity object `{"algorithm": "SHA256", "hash": hash, "blockSize":
/// BLOCK_SIZE, "blocks": blocks}`, members in that order.
pub open spec fn integrity_view(hash: Seq<char>, blocks: Seq<Seq<char>>) -> Json {
    Json::Object(
        seq![
            ("algorithm"@, Json::Str("SHA256"@)),
            ("hash"@, Json::Str(hash)),
            ("blockSize"@, Json::Unsigned(BLOCK_SIZE as u64)),
            ("blocks"@, Json::Array(Seq::new(blocks.len(), |k: int| Json::Str(blocks[k])))),
        ],
    )
}

/// The JSON strings of `texts`.
pub open spec fn str_items(items: Seq<JsonValue>, texts: Seq<Seq<char>>) -> bool {
    &&& items.len() == texts.len()
    &&& forall|k: int| 0 <= k < texts.len() ==> #[trigger] jview(items[k]) == Json::Str(texts[k])
}

/// The hex texts of `blocks`.
pub open spec fn texts(blocks: Seq<String>) -> Seq<Seq<char>> {
    blocks.map_values(|b: String| b@)
}

fn integrity_object(hash: String, blocks: Vec<JsonValue>, Ghost(texts): Ghost<Seq<Seq<char>>>) -> (v: JsonValue)
    requires
        str_items(blocks@, texts),
    ensures
        jview(v) == integrity_view(hash@, texts),
{
    proof {
        assert forall|k: int| 0 <= k < texts.len() implies #[trigger] aview(blocks@)[k] == Json::Str(
            texts[k],
        ) by {
            assert(jview(blocks@[k]) == Json::Str(texts[k]));
        }
        assert(aview(blocks@) =~= Seq::new(texts.len(), |k: int| Json::Str(texts[k])));
    }
    let v = JsonValue::Object(
        vec![
            (owned("algorithm"), JsonValue::Str(owned("SHA256"))),
            (owned("hash"), JsonValue::Str(hash)),
            (owned("blockSize"), JsonValue::Number(JsonNumber::Unsigned(BLOCK_SIZE as u64))),
            (owned("blocks"), JsonValue::Array(blocks)),
        ],
    );
    proof {
        let m = v->Object_0;
        assert(mview(m@) =~= integrity_view(hash@, texts)->Object_0);
    }
    v
}

/// The integrity object for `integrity`.
pub fn to_json(integrity: &Integrity) -> (v: JsonValue)
    ensures
        jview(v) == integrity_view(integrity.hash@, texts(integrity.blocks@)),
{
    let mut items: Vec<JsonValue> = Vec::new();
    let mut i: usize = 0;
    while i < integrity.blocks.len()
        invariant
            i <= integrity.blocks@.len(),
            items@.len() == i,
            str_items(items@, texts(integrity.blocks@).take(i as int)),
        decreases integrity.blocks@.len() - i,
    {
        items.push(JsonValue::Str(integrity.blocks[i].clone()));
        i += 1;
    }
    assert(texts(integrity.blocks@).take(integrity.blocks@.len() as int) =~= texts(integrity.blocks@));
    integrity_object(integrity.hash.clone(), items, Ghost(texts(integrity.blocks@)))
}

fn zeros64() -> (s: String)
    ensures
        s@ == zero_hash(),
{
    let mut s = String::new();
    let mut i: usize = 0;
    while i < 64
        invariant
            i <= 64,
            s@ == Seq::new(i as nat, |k: int| '0'),
        decreases 64 - i,
    {
        push_char(&mut s, '0');
        i += 1;
        assert(s@ =~= Seq::new(i as nat, |k: int| '0'));
    }
    s
}

/// The placeholder integrity object reserved for a file of `size` bytes.
pub open spec fn placeholder_view(size: int) -> Json {
    integrity_view(zero_hash(), Seq::new(block_count(size) as nat, |k: int| zero_hash()))
}

/// An integrity object of the right shape for a file of `size` bytes, with
/// every hash zero, so that space can be reserved for the real one.
pub fn placeholder(size: u64) -> (v: JsonValue)
    ensures
        jview(v) == placeholder_view(size as int),
{
    let block_count: u64 = if size == 0 {
        1
    } else {
        (size - 1) / (BLOCK_SIZE as u64) + 1
    };
    proof {
        if size > 0 {
            assert((size - 1) / (BLOCK_SIZE as int) + 1 == (size + BLOCK_SIZE - 1) / (
            BLOCK_SIZE as int)) by (nonlinear_arith)
                requires
                    size > 0,
                    BLOCK_SIZE == 4194304,
            ;
        }
    }
    let mut items: Vec<JsonValue> = Vec::new();
    let mut i: u64 = 0;
    while i < block_count
        invariant
            i <= block_count,
            items@.len() == i,
            str_items(items@, Seq::new(i as nat, |k: int| zero_hash())),
        decreases block_count - i,
    {
        items.push(JsonValue::Str(zeros64()));
        i += 1;
        assert(Seq::new(i as nat, |k: int| zero_hash()) =~= Seq::new((i - 1) as nat, |k: int| zero_hash()).push(zero_hash()));
    }
    integrity_object(zeros64(), items, Ghost(Seq::new(block_count as nat, |k: int| zero_hash())))
}

/// The placeholder reserved for a file and the final integrity object of
/// its contents have the same shape: the same members, as many blocks, and
/// every hash text 64 characters long.
pub proof fn lemma_placeholder_matches_final(integrity: Integrity, data: Seq<u8>)
    requires
        integrity_of(integrity, data),
    ensures
        texts(integrity.blocks@).len() == block_count(data.len() as int),
        integrity.hash@.len() == zero_hash().len(),
        forall|k: int| 0 <= k < block_count(data.len() as int) ==> (#[trigger] texts(integrity.blocks@)[k]).len()
            == zero_hash().len(),
{
    assert forall|k: int| 0 <= k < block_count(data.len() as int) implies (#[trigger] texts(integrity.blocks@)[k]).len()
        == zero_hash().len() by {
        assert(integrity.blocks@[k]@.len() == 64);
    }
}

/// A file no larger than one block has exactly one block, whose hash is
/// the hash of the whole file; a larger one has more than one.
pub proof fn lemma_single_block_hash(integrity: Integrity, data: Seq<u8>)
    requires
        integrity_of(integrity, data),
    ensures
        data.len() <= BLOCK_SIZE ==> integrity.blocks@.len() == 1 && integrity.hash@
            == integrity.blocks@[0]@,
        data.len() > BLOCK_SIZE ==> integrity.blocks@.len() > 1,
{
    if data.len() <= BLOCK_SIZE {
        if data.len() > 0 {
            assert((data.len() + BLOCK_SIZE - 1) / (BLOCK_SIZE as int) == 1) by (nonlinear_arith)
                requires 0 < data.len() <= BLOCK_SIZE, BLOCK_SIZE == 4194304;
        }
        assert(chunk(data, 0) =~= data);
        assert(integrity.blocks@[0]@ == block_hashes(data)[0]);
    } else {
        assert((data.len() + BLOCK_SIZE - 1) / (BLOCK_SIZE as int) > 1) by (nonlinear_arith)
            requires data.len() > BLOCK_SIZE, BLOCK_SIZE == 4194304;
    }
}

} // verus!
