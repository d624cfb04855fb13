//! Content hashing: the 20-byte object hash, its lowercase-hex rendering, and
//! the SHA-1 preimages for blobs (`"blob <ext> <content>"`) and trees
//! (`"tree"` followed by the child hashes).

use vstd::prelude::*;
use vstd::utf8::encode_utf8;
use sha1::Digest;

verus! {

/// The number of bytes in an object hash (SHA-1 output width).
pub const HASH_LEN: usize = 20;

/// A content address: 20 bytes of SHA-1 output.
pub struct ObjectHash {
    bytes: Vec<u8>,
}

impl View for ObjectHash {
    type V = Seq<u8>;

    closed spec fn view(&self) -> Seq<u8> {
        self.bytes@
    }
}

/// The 20-byte digest that the SHA-1 function assigns to a byte sequence.
/// Only the trusted digest wrapper relates it to executable code.
pub uninterp spec fn sha1_of(bytes: Seq<u8>) -> Seq<u8>;

/// Relies on sha1::Sha1::digest: the 20-byte SHA-1 digest of the input,
/// a function of the input bytes alone.
#[verifier::external_body]
pub(crate) fn sha1_digest_bytes(bytes: &Vec<u8>) -> (r: Vec<u8>)
    ensures
        r@ == sha1_of(bytes@),
        r@.len() == HASH_LEN,
{
    sha1::Sha1::digest(bytes.as_slice()).to_vec()
}

impl ObjectHash {
    /// A well-formed hash holds exactly 20 bytes.
    pub open spec fn wf(&self) -> bool {
        self@.len() == HASH_LEN
    }

    /// Wrap 20 raw bytes as an object hash.
    pub fn from_bytes(bytes: Vec<u8>) -> (r: ObjectHash)
        requires
            bytes@.len() == HASH_LEN,
        ensures
            r@ == bytes@,
            r.wf(),
    {
        ObjectHash { bytes }
    }

    /// The number of bytes held.
    pub fn len(&self) -> (n: usize)
        ensures
            n == self@.len(),
    {
        self.bytes.len()
    }

    /// The byte at position `i`.
    pub fn byte_at(&self, i: usize) -> (b: u8)
        requires
            i < self@.len(),
        ensures
            b == self@[i as int],
    {
        self.bytes[i]
    }

    /// An owned copy of the hash bytes.
    pub fn to_vec(&self) -> (r: Vec<u8>)
        ensures
            r@ == self@,
    {
        let mut out: Vec<u8> = Vec::new();
        let mut i: usize = 0;
        while i < self.bytes.len()
            invariant
                i <= self.bytes@.len(),
                out@ =~= self.bytes@.take(i as int),
            decreases self.bytes@.len() - i,
        {
            out.push(self.bytes[i]);
            i = i + 1;
        }
        assert(out@ =~= self.bytes@);
        out
    }

    /// An identical hash value.
    pub fn duplicate(&self) -> (r: ObjectHash)
        ensures
            r@ == self@,
    {
        ObjectHash { bytes: self.to_vec() }
    }
}

impl PartialEq for ObjectHash {
    /// Byte-for-byte equality of the two hashes.
    fn eq(&self, other: &ObjectHash) -> (r: bool) {
        if self.bytes.len() != other.bytes.len() {
            return false;
        }
        let mut i: usize = 0;
        while i < self.bytes.len()
            invariant
                i <= self.bytes@.len(),
                self.bytes@.len() == other.bytes@.len(),
                forall|j: int| 0 <= j < i ==> self.bytes@[j] == other.bytes@[j],
            decreases self.bytes@.len() - i,
        {
            if self.bytes[i] != other.bytes[i] {
                return false;
            }
            i = i + 1;
        }
        proof {
            assert(self.bytes@ =~= other.bytes@);
        }
        true
    }
}

impl vstd::std_specs::cmp::PartialEqSpecImpl for ObjectHash {
    open spec fn obeys_eq_spec() -> bool {
        true
    }

    open spec fn eq_spec(&self, other: &ObjectHash) -> bool {
        self@ == other@
    }
}

impl Eq for ObjectHash {}

/// The lowercase hex character for a value below 16.
pub open spec fn hex_digit(n: u8) -> char
    recommends
        n < 16,
{
    if n < 10 {
        (48 + n) as char
    } else {
        (87 + n) as char
    }
}

/// The lowercase hex rendering of a byte sequence: two characters per byte,
/// high nibble first.
pub open spec fn hex_of(bytes: Seq<u8>) -> Seq<char> {
    Seq::new(
        bytes.len() * 2,
        |i: int| if i % 2 == 0 { hex_digit(bytes[i / 2] / 16) } else { hex_digit(bytes[i / 2] % 16) },
    )
}

/// The hex characters of `hash`: 40 lowercase hex digits.
pub fn hash_chars(hash: &ObjectHash) -> (r: Vec<char>)
    ensures
        r@ == hex_of(hash@),
{
    let mut out: Vec<char> = Vec::new();
    let mut i: usize = 0;
    while i < hash.len()
        invariant
            i <= hash@.len(),
            out@ =~= hex_of(hash@.take(i as int)),
        decreases hash@.len() - i,
    {
        let b = hash.byte_at(i);
        let hi = b / 16;
        let lo = b % 16;
        let hi_c: char = if hi < 10 { (48 + hi) as char } else { (87 + hi) as char };
        let lo_c: char = if lo < 10 { (48 + lo) as char } else { (87 + lo) as char };
        out.push(hi_c);
        out.push(lo_c);
        i = i + 1;
        proof {
            assert(out@ =~= hex_of(hash@.take(i as int)));
        }
    }
    proof {
        assert(hash@.take(hash@.len() as int) =~= hash@);
    }
    out
}

/// Relies on String's FromIterator over char: the string of exactly the
/// given characters, in order.
#[verifier::external_body]
pub(crate) fn chars_to_string(chars: &Vec<char>) -> (r: String)
    ensures
        r@ == chars@,
{
    chars.iter().collect()
}

/// The lowercase hex string of `hash`.
pub fn hash_string(hash: &ObjectHash) -> (r: String)
    ensures
        r@ == hex_of(hash@),
{
    let chars = hash_chars(hash);
    chars_to_string(&chars)
}

/// The bytes hashed for a blob: `"blob "`, the file extension, a space, and
/// the file contents, all UTF-8 encoded.
pub open spec fn blob_preimage(ext: Seq<char>, content: Seq<char>) -> Seq<u8> {
    encode_utf8(seq!['b', 'l', 'o', 'b', ' '] + ext + seq![' '] + content)
}

/// The hash of a blob with the given extension and contents.
pub open spec fn spec_blob_hash(ext: Seq<char>, content: Seq<char>) -> Seq<u8> {
    sha1_of(blob_preimage(ext, content))
}

/// The bytes hashed for a tree: the ASCII letters of `"tree"` followed by the
/// child hashes, concatenated in child order.
pub open spec fn tree_preimage(child_hashes: Seq<Seq<u8>>) -> Seq<u8> {
    seq![116u8, 114u8, 101u8, 101u8] + child_hashes.flatten()
}

/// The hash of a tree whose children carry the given hashes.
pub open spec fn spec_tree_hash(child_hashes: Seq<Seq<u8>>) -> Seq<u8> {
    sha1_of(tree_preimage(child_hashes))
}

/// Blob and tree preimages are disjoint: one starts with the letter `b`, the
/// other with `t`, so no blob input is ever hashed as a tree input.
pub proof fn lemma_preimages_disjoint(ext: Seq<char>, content: Seq<char>, child_hashes: Seq<Seq<u8>>)
    ensures
        blob_preimage(ext, content) != tree_preimage(child_hashes),
{
    let chars = seq!['b', 'l', 'o', 'b', ' '] + ext + seq![' '] + content;
    assert(chars[0] == 'b');
    assert('b' as u32 == 98);
    assert(vstd::utf8::has_width_1_encoding(98));
    assert(vstd::utf8::leading_byte_width_1(98) == 98u8) by (bit_vector);
    assert(vstd::utf8::encode_scalar(98)[0] == 98u8);
    assert(blob_preimage(ext, content)[0] == 98u8);
    assert(tree_preimage(child_hashes)[0] == 116u8);
}

/// Compute the blob hash of a file's contents under its extension.
pub fn blob_hash(content: &str, file_ext: &str) -> (r: ObjectHash)
    ensures
        r@ == spec_blob_hash(file_ext@, content@),
        r.wf(),
{
    let mut s: String = "blob ".to_owned();
    s.append(file_ext);
    s.append(" ");
    s.append(content);
    proof {
        reveal_strlit("blob ");
        reveal_strlit(" ");
        assert("blob "@ =~= seq!['b', 'l', 'o', 'b', ' ']);
        assert(" "@ =~= seq![' ']);
        assert(s@ =~= seq!['b', 'l', 'o', 'b', ' '] + file_ext@ + seq![' '] + content@);
    }
    let bytes = s.as_str().as_bytes_vec();
    let digest = sha1_digest_bytes(&bytes);
    ObjectHash::from_bytes(digest)
}

} // verus!
