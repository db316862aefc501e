use sha2::{Digest, Sha256};
use vstd::prelude::*;

verus! {

/// Lexicographic "strictly less than" on byte strings, comparing from position `i` on.
pub open spec fn lex_lt_from(a: Seq<u8>, b: Seq<u8>, i: int) -> bool
    decreases a.len() - i,
{
    if i < 0 || i >= a.len() || i >= b.len() {
        false
    } else if a[i] < b[i] {
        true
    } else if a[i] > b[i] {
        false
    } else {
        lex_lt_from(a, b, i + 1)
    }
}

/// Lexicographic order on byte strings: the order of `[u8; N]` in Rust.
pub open spec fn lex_lt(a: Seq<u8>, b: Seq<u8>) -> bool {
    lex_lt_from(a, b, 0)
}

/// Lexicographic "less than or equal".
pub open spec fn lex_le(a: Seq<u8>, b: Seq<u8>) -> bool {
    lex_lt(a, b) || a == b
}

pub proof fn lemma_lex_irreflexive_from(a: Seq<u8>, i: int)
    ensures
        !lex_lt_from(a, a, i),
    decreases a.len() - i,
{
    if 0 <= i < a.len() {
        lemma_lex_irreflexive_from(a, i + 1);
    }
}

pub proof fn lemma_lex_transitive_from(a: Seq<u8>, b: Seq<u8>, c: Seq<u8>, i: int)
    requires
        a.len() == b.len(),
        b.len() == c.len(),
        lex_lt_from(a, b, i),
        lex_lt_from(b, c, i),
    ensures
        lex_lt_from(a, c, i),
    decreases a.len() - i,
{
    if 0 <= i < a.len() && a[i] == b[i] && b[i] == c[i] {
        lemma_lex_transitive_from(a, b, c, i + 1);
    }
}

pub proof fn lemma_lex_asymmetric_from(a: Seq<u8>, b: Seq<u8>, i: int)
    requires
        lex_lt_from(a, b, i),
    ensures
        !lex_lt_from(b, a, i),
    decreases a.len() - i,
{
    if 0 <= i < a.len() && i < b.len() && a[i] == b[i] {
        lemma_lex_asymmetric_from(a, b, i + 1);
    }
}

pub proof fn lemma_lex_total_from(a: Seq<u8>, b: Seq<u8>, i: int)
    requires
        a.len() == b.len(),
        0 <= i <= a.len(),
    ensures
        lex_lt_from(a, b, i) || lex_lt_from(b, a, i) || (forall|j: int|
            i <= j < a.len() ==> a[j] == b[j]),
    decreases a.len() - i,
{
    if i < a.len() {
        lemma_lex_total_from(a, b, i + 1);
    }
}

/// The lexicographic order on byte strings of one length is a strict total order.
pub proof fn lemma_lex_order(a: Seq<u8>, b: Seq<u8>, c: Seq<u8>)
    requires
        a.len() == b.len(),
        b.len() == c.len(),
    ensures
        !lex_lt(a, a),
        lex_lt(a, b) ==> !lex_lt(b, a),
        lex_lt(a, b) && lex_lt(b, c) ==> lex_lt(a, c),
        lex_lt(a, b) || lex_lt(b, a) || a == b,
{
    lemma_lex_irreflexive_from(a, 0);
    if lex_lt(a, b) {
        lemma_lex_asymmetric_from(a, b, 0);
        if lex_lt(b, c) {
            lemma_lex_transitive_from(a, b, c, 0);
        }
    }
    lemma_lex_total_from(a, b, 0);
    if !lex_lt(a, b) && !lex_lt(b, a) {
        assert(a =~= b);
    }
}

/// Compares two block keys in the order of `[u8; 16]`: true when `a < b`.
pub fn data_lt(a: &[u8; 16], b: &[u8; 16]) -> (r: bool)
    ensures
        r == lex_lt(a@, b@),
{
    let mut i: usize = 0;
    while i < 16
        invariant
            0 <= i <= 16,
            a@.len() == 16,
            b@.len() == 16,
            lex_lt(a@, b@) == lex_lt_from(a@, b@, i as int),
        decreases 16 - i,
    {
        if a[i] < b[i] {
            return true;
        } else if a[i] > b[i] {
            return false;
        }
        i = i + 1;
    }
    false
}

/// What SHA-256 gives for a byte string: the 32-byte digest.
pub uninterp spec fn sha256(data: Seq<u8>) -> Seq<u8>;

/// Calls `sha2::Sha256::digest` on the ten bytes; its result is taken to be the
/// SHA-256 digest of those bytes, named `sha256`.
#[verifier::external_body]
fn sha256_digest(data: &[u8; 10]) -> (digest: [u8; 32])
    ensures
        digest@ == sha256(data@),
{
    Sha256::digest(data).into()
}

/// Default hasher for the linked list: the first 16 bytes of the SHA-256
/// digest of a 10-byte phone number.
pub fn sha_hash(data: &[u8; 10]) -> (hash: [u8; 16])
    ensures
        sha256(data@).len() == 32,
        hash@ == sha256(data@).take(16),
{
    let full = sha256_digest(data);
    let mut hash = [0u8; 16];
    let mut i: usize = 0;
    while i < 16
        invariant
            0 <= i <= 16,
            full@ == sha256(data@),
            full@.len() == 32,
            hash@.len() == 16,
            forall|j: int| 0 <= j < i ==> hash@[j] == full@[j],
        decreases 16 - i,
    {
        hash[i] = full[i];
        i = i + 1;
    }
    assert(hash@ =~= sha256(data@).take(16));
    hash
}

/// Reads the system clock through `chrono::Utc::now().timestamp_millis()`.
/// Nothing is stated of the value: it is the time of the call.
#[verifier::external_body]
pub(crate) fn now_millis() -> i64 {
    chrono::Utc::now().timestamp_millis()
}

#[derive(Debug, Clone, Copy)]
pub struct Block {
    pub data: [u8; 16],
    pub timestamp: i64,
    pub disabled: bool,
    pub next: Option<usize>,
}

impl Block {
    /// A block for a phone number made at time `timestamp` (milliseconds): its data
    /// is the phone number's hash and it links nowhere.
    pub fn new_at(phone_number: [u8; 10], is_disabled: bool, timestamp: i64) -> (block: Block)
        ensures
            block.data@ == sha256(phone_number@).take(16),
            block.next is None,
            block.disabled == is_disabled,
            block.timestamp == timestamp,
    {
        let hash: [u8; 16] = sha_hash(&phone_number);
        Block { data: hash, next: None, timestamp, disabled: is_disabled }
    }

    /// A new block for a phone number, made now: `new_at` with the clock's time.
    pub fn new(phone_number: [u8; 10], is_disabled: bool) -> (block: Block)
        ensures
            block.data@ == sha256(phone_number@).take(16),
            block.next is None,
            block.disabled == is_disabled,
    {
        let now = now_millis();
        Block::new_at(phone_number, is_disabled, now)
    }
}

} // verus!
