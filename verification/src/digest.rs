//! Content digests: the BLAKE3 hash of a file's bytes, as hexadecimal text.
use vstd::prelude::*;
use crate::manifest::{lemma_parse_entry, parse, render_entry, renderable, EntryView, ManifestEntry};

verus! {

/// The BLAKE3 hash of `content`, written as lowercase hexadecimal text.
pub uninterp spec fn blake3_hex(content: Seq<u8>) -> Seq<char>;

/// A digit of lowercase hexadecimal.
pub open spec fn is_hex_digit(c: char) -> bool {
    c == '0' || c == '1' || c == '2' || c == '3' || c == '4' || c == '5' || c == '6' || c == '7'
        || c == '8' || c == '9' || c == 'a' || c == 'b' || c == 'c' || c == 'd' || c == 'e' || c
        == 'f'
}

/// The shape of a digest: 64 digits of lowercase hexadecimal.
pub open spec fn is_digest(text: Seq<char>) -> bool {
    text.len() == 64 && forall|i: int| 0 <= i < text.len() ==> is_hex_digit(#[trigger] text[i])
}

/// A digest recorded on a manifest line is read back as it was written,
/// for every path that fits on a line.
pub proof fn lemma_digest_round_trip(digest: Seq<char>, path: Seq<char>)
    requires
        is_digest(digest),
        forall|i: int| 0 <= i < path.len() ==> path[i] != '\n',
        path.len() > 0 ==> path.last() != '\r',
    ensures
        renderable(EntryView { digest, path }),
        parse(render_entry(EntryView { digest, path })) == seq![EntryView { digest, path }],
{
    let e = EntryView { digest, path };
    assert forall|i: int| 0 <= i < digest.len() implies digest[i] != ' ' && digest[i] != '\n' by {
        assert(is_hex_digit(digest[i]));
    }
    lemma_parse_entry(e);
}

/// `blake3::Hasher`: the state of a hash that takes its input in pieces.
/// Nothing inside it is read here.
#[verifier::external_type_specification]
#[verifier::external_body]
pub struct ExHasher(blake3::Hasher);

/// The bytes that a hasher has taken in so far, in their order.
pub uninterp spec fn hashed_input(hasher: blake3::Hasher) -> Seq<u8>;

/// A hasher that takes a file's content piece by piece, so that a file need
/// not be held in memory as a whole.
pub struct ContentHasher {
    inner: blake3::Hasher,
}

impl View for ContentHasher {
    type V = Seq<u8>;

    /// The content taken in so far.
    closed spec fn view(&self) -> Seq<u8> {
        hashed_input(self.inner)
    }
}

/// `blake3::Hasher::new`: a hasher for the regular hash function that has
/// taken in nothing yet.
#[verifier::external_body]
fn hasher_new() -> (hasher: ContentHasher)
    ensures
        hashed_input(hasher.inner) == Seq::<u8>::empty(),
{
    ContentHasher { inner: blake3::Hasher::new() }
}

/// `blake3::Hasher::update`: the bytes are added to the input, behind what
/// was taken in before.
#[verifier::external_body]
fn hasher_update(hasher: &mut ContentHasher, chunk: &[u8])
    ensures
        hashed_input(final(hasher).inner) == hashed_input(old(hasher).inner) + chunk@,
{
    hasher.inner.update(chunk);
}

/// `blake3::Hasher::finalize`, then `Hash::to_hex`. Not proved: that the
/// text is the hash of the input taken in so far, whatever the pieces it
/// came in, and that it is made of 64 digits taken from `0123456789abcdef`,
/// two for each of the hash's 32 bytes.
#[verifier::external_body]
fn hasher_hex(hasher: &ContentHasher) -> (hex: String)
    ensures
        hex@ == blake3_hex(hashed_input(hasher.inner)),
        is_digest(hex@),
{
    hasher.inner.finalize().to_hex().as_str().to_string()
}

impl ContentHasher {
    /// A hasher that has taken in nothing yet.
    pub fn new() -> (hasher: Self)
        ensures
            hasher@ == Seq::<u8>::empty(),
    {
        hasher_new()
    }

    /// Takes in the next piece of the content.
    pub fn update(&mut self, chunk: &[u8])
        ensures
            final(self)@ == old(self)@ + chunk@,
    {
        hasher_update(self, chunk)
    }

    /// The digest of the content taken in so far.
    pub fn finish(&self) -> (digest: String)
        ensures
            digest@ == blake3_hex(self@),
            is_digest(digest@),
    {
        hasher_hex(self)
    }
}

/// The pieces of a content, joined in their order.
pub open spec fn joined(chunks: Seq<Vec<u8>>) -> Seq<u8>
    decreases chunks.len(),
{
    if chunks.len() == 0 {
        Seq::empty()
    } else {
        joined(chunks.drop_last()) + chunks.last()@
    }
}

/// The digest of a content given in pieces. How the content is cut into
/// pieces is of no account: the digest is that of the pieces joined.
pub fn digest_chunks(chunks: &Vec<Vec<u8>>) -> (digest: String)
    ensures
        digest@ == blake3_hex(joined(chunks@)),
        is_digest(digest@),
{
    let mut hasher = ContentHasher::new();
    let mut i: usize = 0;
    while i < chunks.len()
        invariant
            i <= chunks.len(),
            hasher@ == joined(chunks@.take(i as int)),
        decreases chunks.len() - i,
    {
        hasher.update(chunks[i].as_slice());
        proof {
            assert(chunks@.take(i + 1).drop_last() =~= chunks@.take(i as int));
        }
        i += 1;
    }
    proof {
        assert(chunks@.take(i as int) =~= chunks@);
    }
    hasher.finish()
}

/// The digest of a content held as a whole.
pub fn content_digest(content: &[u8]) -> (digest: String)
    ensures
        digest@ == blake3_hex(content@),
        is_digest(digest@),
{
    let mut hasher = ContentHasher::new();
    hasher.update(content);
    proof {
        assert(Seq::<u8>::empty() + content@ =~= content@);
    }
    hasher.finish()
}

/// The entry that publishes a file: its path with the digest of its content.
pub fn entry_for(path: String, content: &[u8]) -> (entry: ManifestEntry)
    ensures
        entry@ == (EntryView { digest: blake3_hex(content@), path: path@ }),
        is_digest(entry.digest@),
{
    ManifestEntry { digest: content_digest(content), path }
}

} // verus!
