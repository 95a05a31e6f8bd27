//! Blocks of a token, and the signature chain that links them.
//!
//! Block `i` is signed, under the key that block `i - 1` declared (the root
//! key for the first block), over its encoded content followed by the
//! public key that will sign block `i + 1`. The holder keeps the secret of
//! the last declared key to append a block, or replaces it by a seal: a
//! signature by that secret over the last block's signed bytes and its
//! signature, after which no block can be added. The content bytes are the
//! block's encoding, and verification checks each block against them.
use vstd::prelude::*;
use crate::datalog::{Caveat, Predicate, PredV, Rule, RuleV, preds_view, rules_view};
use crate::symbols::SymbolTable;
use crate::error::Error;
use crate::authorizer::{Authorizer, decision_of};
use crate::solver::RunLimits;
use crate::codec::{block_enc, encode_block};
use crate::datalog::bytes_eq;
use ed25519_dalek::Signer;

verus! {

/// The version tag written into new blocks.
pub const MAX_SCHEMA_VERSION: u32 = 1;

/// One segment of a token: its position, the names it introduced, and its
/// facts, rules and caveats over the shared symbol table.
#[derive(Debug)]
pub struct Block {
    pub index: u32,
    pub symbols: SymbolTable,
    pub facts: Vec<Predicate>,
    pub rules: Vec<Rule>,
    pub caveats: Vec<Caveat>,
    pub context: Option<String>,
    pub version: u32,
}

/// The facts of all blocks, block after block.
pub open spec fn block_facts(blocks: Seq<Block>) -> Seq<PredV>
    decreases blocks.len(),
{
    if blocks.len() == 0 {
        Seq::empty()
    } else {
        block_facts(blocks.drop_last()) + preds_view(blocks.last().facts@)
    }
}

/// The rules of all blocks, block after block.
pub open spec fn block_rules(blocks: Seq<Block>) -> Seq<RuleV>
    decreases blocks.len(),
{
    if blocks.len() == 0 {
        Seq::empty()
    } else {
        block_rules(blocks.drop_last()) + rules_view(blocks.last().rules@)
    }
}

/// Whether `signature` is a valid signature of `message` under the public
/// key `key`.
pub uninterp spec fn signature_verifies(key: Seq<u8>, message: Seq<u8>, signature: Seq<u8>) -> bool;

/// The signature of `message` by the secret key `secret`.
pub uninterp spec fn signature_by(secret: Seq<u8>, message: Seq<u8>) -> Seq<u8>;

/// The public key of the secret key `secret`.
pub uninterp spec fn public_key_of(secret: Seq<u8>) -> Seq<u8>;

/// Relies on `ed25519_dalek::VerifyingKey::verify_strict`, after reading the
/// key with `VerifyingKey::from_bytes` and the signature with
/// `Signature::from_bytes`; material of the wrong length does not verify.
#[verifier::external_body]
fn verify_signature(key: &Vec<u8>, message: &Vec<u8>, signature: &Vec<u8>) -> (r: bool)
    ensures
        r == signature_verifies(key@, message@, signature@),
{
    match (<[u8; 32]>::try_from(key.as_slice()), <[u8; 64]>::try_from(signature.as_slice())) {
        (Ok(k), Ok(sig)) => match ed25519_dalek::VerifyingKey::from_bytes(&k) {
            Ok(vk) => vk.verify_strict(message, &ed25519_dalek::Signature::from_bytes(&sig)).is_ok(),
            Err(_) => false,
        },
        _ => false,
    }
}

/// Relies on `ed25519_dalek::SigningKey::sign`, which never fails: a
/// 64-byte signature.
#[verifier::external_body]
fn sign_message(secret: &[u8; 32], message: &Vec<u8>) -> (r: Vec<u8>)
    ensures
        r@ == signature_by(secret@, message@),
        r@.len() == 64,
{
    ed25519_dalek::SigningKey::from_bytes(secret).sign(message).to_bytes().to_vec()
}

/// Relies on `ed25519_dalek::SigningKey::verifying_key`: a 32-byte public key.
#[verifier::external_body]
fn public_key(secret: &[u8; 32]) -> (r: Vec<u8>)
    ensures
        r@ == public_key_of(secret@),
        r@.len() == 32,
{
    ed25519_dalek::SigningKey::from_bytes(secret).verifying_key().to_bytes().to_vec()
}

/// The signed form of a block: its encoding (see [`crate::codec`]), the
/// public key that signs the next block, and the signature over both.
#[derive(Clone, Debug, PartialEq, Eq)]
pub struct SignedBlock {
    pub content: Vec<u8>,
    pub next_key: Vec<u8>,
    pub signature: Vec<u8>,
}

/// What the holder of a token keeps after the last block: the secret key
/// that may sign one more block, or a seal that forbids any.
#[derive(Clone, Debug, PartialEq, Eq)]
pub enum Proof {
    NextSecret([u8; 32]),
    Sealed(Vec<u8>),
}

/// A token: the issuer's public key, the decoded blocks, their signed forms,
/// and the proof held after the last one.
#[derive(Debug)]
pub struct Biscuit {
    pub root_key: Vec<u8>,
    pub blocks: Vec<Block>,
    pub signed: Vec<SignedBlock>,
    pub ending: Proof,
}

/// The bytes a block's signature covers: its content, then the next key.
pub open spec fn signed_message(b: SignedBlock) -> Seq<u8> {
    b.content@ + b.next_key@
}

/// The key that must have signed block `i`: the root key for the first
/// block, else the next key its predecessor declares.
pub open spec fn signer_of(root: Seq<u8>, links: Seq<SignedBlock>, i: int) -> Seq<u8> {
    if i == 0 {
        root
    } else {
        links[i - 1].next_key@
    }
}

/// Block `i` carries a valid signature under the key its predecessor declares.
pub open spec fn link_valid(root: Seq<u8>, links: Seq<SignedBlock>, i: int) -> bool {
    signature_verifies(signer_of(root, links, i), signed_message(links[i]), links[i].signature@)
}

/// The bytes a seal covers: the last block's signed bytes and its signature.
pub open spec fn sealed_message(b: SignedBlock) -> Seq<u8> {
    signed_message(b) + b.signature@
}

/// The whole chain is valid: it is not empty, every block is signed in turn
/// from the root key, and a seal verifies under the last declared key.
pub open spec fn chain_valid(root: Seq<u8>, links: Seq<SignedBlock>, ending: Proof) -> bool {
    &&& links.len() > 0
    &&& forall|i: int| 0 <= i < links.len() ==> #[trigger] link_valid(root, links, i)
    &&& match ending {
        Proof::Sealed(seal) => signature_verifies(
            links.last().next_key@,
            sealed_message(links.last()),
            seal@,
        ),
        Proof::NextSecret(_) => true,
    }
}

/// Concatenation of two byte strings.
pub fn concat_bytes(a: &Vec<u8>, b: &Vec<u8>) -> (r: Vec<u8>)
    ensures
        r@ == a@ + b@,
{
    let mut out: Vec<u8> = Vec::new();
    let mut i: usize = 0;
    while i < a.len()
        invariant
            i <= a.len(),
            out@ == a@.subrange(0, i as int),
        decreases a.len() - i,
    {
        out.push(a[i]);
        assert(a@.subrange(0, i + 1) =~= a@.subrange(0, i as int).push(a@[i as int]));
        i = i + 1;
    }
    let mut j: usize = 0;
    while j < b.len()
        invariant
            j <= b.len(),
            out@ == a@ + b@.subrange(0, j as int),
        decreases b.len() - j,
    {
        out.push(b[j]);
        assert(b@.subrange(0, j + 1) =~= b@.subrange(0, j as int).push(b@[j as int]));
        assert(out@ =~= a@ + b@.subrange(0, j + 1));
        j = j + 1;
    }
    assert(a@.subrange(0, a@.len() as int) =~= a@);
    assert(b@.subrange(0, b@.len() as int) =~= b@);
    out
}

/// Checks the signature chain from the root key: `Ok` exactly when
/// [`chain_valid`] holds; otherwise the first block whose signature fails,
/// or the last block's position for a seal that fails.
pub fn verify_chain(root: &Vec<u8>, links: &Vec<SignedBlock>, ending: &Proof) -> (r: Result<(), Error>)
    ensures
        r is Ok <==> chain_valid(root@, links@, *ending),
        links@.len() == 0 ==> r == Err::<(), Error>(Error::InvalidBlockIndex),
        r matches Err(e) ==> (e is InvalidSignature || e is InvalidBlockIndex),
        r == Err::<(), Error>(Error::InvalidBlockIndex) ==> links@.len() == 0,
        r matches Err(Error::InvalidSignature(i)) ==> i < links@.len() && (!link_valid(root@, links@, i as int) || i == links@.len() - 1)
            && forall|j: int| 0 <= j < i ==> link_valid(root@, links@, j),
{
    if links.len() == 0 {
        return Err(Error::InvalidBlockIndex);
    }
    let mut i: usize = 0;
    while i < links.len()
        invariant
            i <= links.len(),
            forall|j: int| 0 <= j < i ==> #[trigger] link_valid(root@, links@, j),
        decreases links.len() - i,
    {
        let message = concat_bytes(&links[i].content, &links[i].next_key);
        let ok = if i == 0 {
            verify_signature(root, &message, &links[i].signature)
        } else {
            verify_signature(&links[i - 1].next_key, &message, &links[i].signature)
        };
        if !ok {
            assert(!link_valid(root@, links@, i as int));
            return Err(Error::InvalidSignature(i));
        }
        i = i + 1;
    }
    match ending {
        Proof::Sealed(seal) => {
            let last = links.len() - 1;
            let message = concat_bytes(&links[last].content, &links[last].next_key);
            let sealed = concat_bytes(&message, &links[last].signature);
            if !verify_signature(&links[last].next_key, &sealed, seal) {
                return Err(Error::InvalidSignature(last));
            }
            Ok(())
        },
        Proof::NextSecret(_) => Ok(()),
    }
}

/// The blocks are numbered by their position, and each has its signed form.
pub open spec fn blocks_numbered(blocks: Seq<Block>, signed: Seq<SignedBlock>) -> bool {
    &&& blocks.len() == signed.len()
    &&& forall|i: int| 0 <= i < blocks.len() ==> (#[trigger] blocks[i]).index == i
}

/// Each block's signed content is its encoding.
pub open spec fn blocks_signed(blocks: Seq<Block>, signed: Seq<SignedBlock>) -> bool {
    forall|i: int| 0 <= i < blocks.len() ==> (#[trigger] signed[i]).content@ == block_enc(blocks[i])
}

/// Decides [`blocks_numbered`].
pub fn check_numbering(blocks: &Vec<Block>, signed: &Vec<SignedBlock>) -> (r: bool)
    ensures
        r == blocks_numbered(blocks@, signed@),
{
    if blocks.len() != signed.len() {
        return false;
    }
    let mut i: usize = 0;
    while i < blocks.len()
        invariant
            i <= blocks.len(),
            forall|k: int| 0 <= k < i ==> (#[trigger] blocks@[k]).index == k,
        decreases blocks.len() - i,
    {
        if blocks[i].index as usize != i {
            return false;
        }
        i = i + 1;
    }
    true
}

/// The names the blocks introduce, block after block: the token's symbol
/// table.
pub open spec fn merged_symbols(blocks: Seq<Block>) -> Seq<Seq<char>>
    decreases blocks.len(),
{
    if blocks.len() == 0 {
        Seq::empty()
    } else {
        merged_symbols(blocks.drop_last()) + blocks.last().symbols@
    }
}

/// Concatenates the blocks' names into one private table; ids are never
/// renumbered.
pub fn merge_symbols(blocks: &Vec<Block>) -> (r: SymbolTable)
    ensures
        r@ == merged_symbols(blocks@),
{
    let mut table = SymbolTable::new();
    let mut b: usize = 0;
    assert(blocks@.subrange(0, 0).len() == 0);
    while b < blocks.len()
        invariant
            b <= blocks.len(),
            table@ == merged_symbols(blocks@.subrange(0, b as int)),
        decreases blocks.len() - b,
    {
        let ghost sub = blocks@.subrange(0, b + 1);
        assert(sub.drop_last() =~= blocks@.subrange(0, b as int));
        assert(sub.last() == blocks@[b as int]);
        table.extend(&blocks[b].symbols);
        b = b + 1;
    }
    assert(blocks@.subrange(0, b as int) =~= blocks@);
    table
}

impl Biscuit {
    /// Issues a token of one authority block, signed by the root secret and
    /// committing to the public key of `next_secret`.
    pub fn new(root_secret: &[u8; 32], next_secret: [u8; 32], block: Block) -> (r: Result<Biscuit, Error>)
        ensures
            block.index != 0 ==> r == Err::<Biscuit, Error>(Error::InvalidBlockIndex),
            block.index == 0 ==> (r matches Ok(t) && t.root_key@ == public_key_of(root_secret@)
                && t.blocks@ == seq![block] && t.signed@.len() == 1
                && t.signed@[0].content@ == block_enc(block)
                && t.signed@[0].next_key@ == public_key_of(next_secret@)
                && t.signed@[0].signature@ == signature_by(root_secret@, block_enc(block) + public_key_of(next_secret@))
                && t.ending == Proof::NextSecret(next_secret)),
    {
        if block.index != 0 {
            return Err(Error::InvalidBlockIndex);
        }
        let content = encode_block(&block);
        let root_key = public_key(root_secret);
        let next_key = public_key(&next_secret);
        let message = concat_bytes(&content, &next_key);
        let signature = sign_message(root_secret, &message);
        let mut blocks: Vec<Block> = Vec::new();
        blocks.push(block);
        let mut signed: Vec<SignedBlock> = Vec::new();
        signed.push(SignedBlock { content, next_key, signature });
        Ok(Biscuit { root_key, blocks, signed, ending: Proof::NextSecret(next_secret) })
    }

    /// Attenuates the token: appends a block signed by the secret kept after
    /// the last block, committing to the public key of `next_secret`.
    /// Earlier blocks are left as they are.
    pub fn append(&mut self, block: Block, next_secret: [u8; 32]) -> (r: Result<(), Error>)
        ensures
            old(self).ending is Sealed ==> r == Err::<(), Error>(Error::AlreadySealed) && *final(self) == *old(self),
            !(old(self).ending is Sealed) && block.index as int != old(self).blocks@.len() ==> r == Err::<(), Error>(Error::InvalidBlockIndex) && *final(self) == *old(self),
            (old(self).ending is NextSecret && block.index as int == old(self).blocks@.len()) ==> {
                &&& r is Ok
                &&& final(self).root_key == old(self).root_key
                &&& final(self).blocks@ == old(self).blocks@.push(block)
                &&& final(self).signed@.len() == old(self).signed@.len() + 1
                &&& final(self).signed@.subrange(0, old(self).signed@.len() as int) == old(self).signed@
                &&& final(self).signed@.last().content@ == block_enc(block)
                &&& final(self).signed@.last().next_key@ == public_key_of(next_secret@)
                &&& final(self).signed@.last().signature@ == signature_by(old(self).ending->NextSecret_0@, block_enc(block) + public_key_of(next_secret@))
                &&& final(self).ending == Proof::NextSecret(next_secret)
            },
    {
        let secret = match &self.ending {
            Proof::Sealed(_) => {
                return Err(Error::AlreadySealed);
            },
            Proof::NextSecret(s) => *s,
        };
        if block.index as usize != self.blocks.len() {
            return Err(Error::InvalidBlockIndex);
        }
        let content = encode_block(&block);
        let next_key = public_key(&next_secret);
        let message = concat_bytes(&content, &next_key);
        let signature = sign_message(&secret, &message);
        self.blocks.push(block);
        self.signed.push(SignedBlock { content, next_key, signature });
        self.ending = Proof::NextSecret(next_secret);
        Ok(())
    }

    /// Seals the token: signs the last block and its signature with the kept
    /// secret, after which no block can be appended.
    pub fn seal(&mut self) -> (r: Result<(), Error>)
        ensures
            old(self).ending is Sealed ==> r == Err::<(), Error>(Error::AlreadySealed) && *final(self) == *old(self),
            old(self).signed@.len() == 0 ==> r is Err && *final(self) == *old(self),
            (old(self).ending is NextSecret && old(self).signed@.len() > 0) ==> {
                &&& r is Ok
                &&& final(self).root_key == old(self).root_key
                &&& final(self).blocks == old(self).blocks
                &&& final(self).signed == old(self).signed
                &&& final(self).ending is Sealed
                &&& final(self).ending->Sealed_0@ == signature_by(old(self).ending->NextSecret_0@, sealed_message(old(self).signed@.last()))
            },
    {
        let secret = match &self.ending {
            Proof::Sealed(_) => {
                return Err(Error::AlreadySealed);
            },
            Proof::NextSecret(s) => *s,
        };
        if self.signed.len() == 0 {
            return Err(Error::InvalidBlockIndex);
        }
        let last = self.signed.len() - 1;
        let message = concat_bytes(&self.signed[last].content, &self.signed[last].next_key);
        let sealed = concat_bytes(&message, &self.signed[last].signature);
        let seal = sign_message(&secret, &sealed);
        self.ending = Proof::Sealed(seal);
        Ok(())
    }

    /// Verifies the token: the signature chain first, before any logic, then
    /// the numbering of the blocks and the disjointness of the names they
    /// introduce, then the authorizer's decision over the blocks.
    /// Verification never changes the token.
    pub fn verify(&self, authorizer: &Authorizer, limits: RunLimits) -> (r: Result<usize, Error>)
        ensures
            !chain_valid(self.root_key@, self.signed@, self.ending) ==> (r matches Err(e) && (e is InvalidSignature || e is InvalidBlockIndex)),
            chain_valid(self.root_key@, self.signed@, self.ending) && !blocks_numbered(self.blocks@, self.signed@) ==> r == Err::<usize, Error>(Error::InvalidBlockIndex),
            chain_valid(self.root_key@, self.signed@, self.ending) && blocks_numbered(self.blocks@, self.signed@)
                && !blocks_signed(self.blocks@, self.signed@) ==> (r matches Err(Error::BlockMismatch(i)) && i < self.blocks@.len()
                    && self.signed@[i as int].content@ != block_enc(self.blocks@[i as int])),
            chain_valid(self.root_key@, self.signed@, self.ending) && blocks_numbered(self.blocks@, self.signed@)
                && blocks_signed(self.blocks@, self.signed@)
                && !merged_symbols(self.blocks@).no_duplicates() ==> r == Err::<usize, Error>(Error::DuplicateSymbols),
            chain_valid(self.root_key@, self.signed@, self.ending) && blocks_numbered(self.blocks@, self.signed@)
                && blocks_signed(self.blocks@, self.signed@)
                && merged_symbols(self.blocks@).no_duplicates() ==> decision_of(r) == authorizer.decision(self.blocks@, limits),
    {
        match verify_chain(&self.root_key, &self.signed, &self.ending) {
            Ok(()) => {},
            Err(e) => {
                return Err(e);
            },
        }
        if !check_numbering(&self.blocks, &self.signed) {
            return Err(Error::InvalidBlockIndex);
        }
        let mut i: usize = 0;
        while i < self.blocks.len()
            invariant
                i <= self.blocks.len(),
                self.blocks@.len() == self.signed@.len(),
                chain_valid(self.root_key@, self.signed@, self.ending),
                blocks_numbered(self.blocks@, self.signed@),
                forall|k: int| 0 <= k < i ==> (#[trigger] self.signed@[k]).content@ == block_enc(self.blocks@[k]),
            decreases self.blocks.len() - i,
        {
            let content = encode_block(&self.blocks[i]);
            if !bytes_eq(&content, &self.signed[i].content) {
                return Err(Error::BlockMismatch(i));
            }
            i = i + 1;
        }
        let table = merge_symbols(&self.blocks);
        if !table.is_well_formed() {
            assert(!merged_symbols(self.blocks@).no_duplicates());
            return Err(Error::DuplicateSymbols);
        }
        authorizer.authorize(&self.blocks, limits)
    }
}

/// A token is accepted only if the content of every block, as it stands,
/// carries a valid signature under the key its predecessor declares,
/// starting from the root key: altering a block's content is caught unless
/// the altered bytes verify under that same key.
pub proof fn lemma_accepted_content_is_signed(
    root: Seq<u8>,
    links: Seq<SignedBlock>,
    ending: Proof,
    i: int,
)
    requires
        chain_valid(root, links, ending),
        0 <= i < links.len(),
    ensures
        signature_verifies(
            signer_of(root, links, i),
            links[i].content@ + links[i].next_key@,
            links[i].signature@,
        ),
{
    assert(link_valid(root, links, i));
}

/// A token that verifies has, for every block as it stands, a valid
/// signature over the block's encoding and the next key, under the key its
/// predecessor declares: changing any field of a block is caught unless the
/// new encoding verifies under that same key.
pub proof fn lemma_accepted_blocks_are_signed(
    root: Seq<u8>,
    blocks: Seq<Block>,
    links: Seq<SignedBlock>,
    ending: Proof,
    i: int,
)
    requires
        chain_valid(root, links, ending),
        blocks_numbered(blocks, links),
        blocks_signed(blocks, links),
        0 <= i < blocks.len(),
    ensures
        signature_verifies(signer_of(root, links, i), block_enc(blocks[i]) + links[i].next_key@, links[i].signature@),
{
    assert(link_valid(root, links, i));
    assert(links[i].content@ == block_enc(blocks[i]));
}

/// Whether block `i` verifies depends on the root key, the keys the blocks
/// before it declare, and block `i` alone: a change to block `i` or later
/// leaves the blocks before it valid.
pub proof fn lemma_prefix_unaffected(
    root: Seq<u8>,
    links: Seq<SignedBlock>,
    tampered: Seq<SignedBlock>,
    i: int,
    j: int,
)
    requires
        0 <= j < i <= links.len(),
        i <= tampered.len(),
        forall|k: int| 0 <= k < i ==> tampered[k] == links[k],
    ensures
        link_valid(root, tampered, j) == link_valid(root, links, j),
{
}

} // verus!
