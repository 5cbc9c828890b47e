use vstd::prelude::*;

verus! {

/// The four little-endian bytes of a 32-bit word.
pub open spec fn word_bytes(w: u32) -> Seq<u8> {
    seq![(w & 0xff) as u8, ((w >> 8u32) & 0xff) as u8, ((w >> 16u32) & 0xff) as u8, (w >> 24u32) as u8]
}

/// The 32-bit word whose little-endian bytes are `b0`, `b1`, `b2`, `b3`.
pub open spec fn word_from_bytes(b0: u8, b1: u8, b2: u8, b3: u8) -> u32 {
    (b0 as u32) | ((b1 as u32) << 8u32) | ((b2 as u32) << 16u32) | ((b3 as u32) << 24u32)
}

/// The byte form of an embedding: each component's bit pattern as four
/// little-endian bytes, one component after the other.
pub open spec fn encoded_embedding(words: Seq<u32>) -> Seq<u8> {
    Seq::new(4 * words.len(), |k: int| word_bytes(words[k / 4])[k % 4])
}

/// The components read back from bytes whose length is a multiple of four.
pub open spec fn decoded_words(bytes: Seq<u8>) -> Seq<u32> {
    Seq::new(
        bytes.len() / 4,
        |i: int| word_from_bytes(bytes[4 * i], bytes[4 * i + 1], bytes[4 * i + 2], bytes[4 * i + 3]),
    )
}

/// What decoding gives: the components when the length is a multiple of
/// four, nothing otherwise.
pub open spec fn embedding_decoding(bytes: Seq<u8>) -> Option<Seq<u32>> {
    if bytes.len() % 4 == 0 {
        Some(decoded_words(bytes))
    } else {
        None
    }
}

proof fn lemma_quarter(i: int, j: int)
    requires
        0 <= i,
        0 <= j < 4,
    ensures
        (4 * i + j) / 4 == i,
        (4 * i + j) % 4 == j,
{
    assert((4 * i + j) / 4 == i && (4 * i + j) % 4 == j) by (nonlinear_arith)
        requires
            0 <= i,
            0 <= j < 4,
    ;
}

proof fn lemma_quarter_split(k: int)
    requires
        0 <= k,
    ensures
        k == 4 * (k / 4) + k % 4,
        0 <= k % 4 < 4,
        0 <= k / 4,
{
    assert(k == 4 * (k / 4) + k % 4 && 0 <= k % 4 < 4 && 0 <= k / 4) by (nonlinear_arith)
        requires
            0 <= k,
    ;
}

proof fn lemma_word_round_trip(w: u32)
    ensures
        word_from_bytes(word_bytes(w)[0], word_bytes(w)[1], word_bytes(w)[2], word_bytes(w)[3])
            == w,
{
    let b0 = (w & 0xff) as u8;
    let b1 = ((w >> 8u32) & 0xff) as u8;
    let b2 = ((w >> 16u32) & 0xff) as u8;
    let b3 = (w >> 24u32) as u8;
    assert((b0 as u32) | ((b1 as u32) << 8u32) | ((b2 as u32) << 16u32) | ((b3 as u32) << 24u32)
        == w) by (bit_vector)
        requires
            b0 == (w & 0xff) as u8,
            b1 == ((w >> 8u32) & 0xff) as u8,
            b2 == ((w >> 16u32) & 0xff) as u8,
            b3 == (w >> 24u32) as u8,
    ;
}

proof fn lemma_bytes_round_trip(b0: u8, b1: u8, b2: u8, b3: u8)
    ensures
        word_bytes(word_from_bytes(b0, b1, b2, b3)) == seq![b0, b1, b2, b3],
{
    let w = word_from_bytes(b0, b1, b2, b3);
    assert((w & 0xff) as u8 == b0 && ((w >> 8u32) & 0xff) as u8 == b1 && ((w >> 16u32) & 0xff) as u8
        == b2 && (w >> 24u32) as u8 == b3) by (bit_vector)
        requires
            w == (b0 as u32) | ((b1 as u32) << 8u32) | ((b2 as u32) << 16u32) | ((b3 as u32)
                << 24u32),
    ;
    assert(word_bytes(w) =~= seq![b0, b1, b2, b3]);
}

/// Decoding the byte form of an embedding gives the embedding back.
pub proof fn lemma_embedding_round_trip(words: Seq<u32>)
    ensures
        embedding_decoding(encoded_embedding(words)) == Some(words),
{
    let bytes = encoded_embedding(words);
    assert(bytes.len() == 4 * words.len());
    assert(bytes.len() % 4 == 0 && bytes.len() / 4 == words.len()) by {
        lemma_quarter(words.len() as int, 0);
    }
    assert forall|i: int| 0 <= i < words.len() implies #[trigger] decoded_words(bytes)[i]
        == words[i] by {
        lemma_quarter(i, 0);
        lemma_quarter(i, 1);
        lemma_quarter(i, 2);
        lemma_quarter(i, 3);
        assert(4 * i + 3 < 4 * words.len());
        lemma_word_round_trip(words[i]);
    }
    assert(decoded_words(bytes) =~= words);
}

/// Encoding the components decoded from bytes whose length is a multiple of
/// four gives the same bytes.
pub proof fn lemma_bytes_round_trip_through_words(bytes: Seq<u8>)
    requires
        bytes.len() % 4 == 0,
    ensures
        embedding_decoding(bytes) matches Some(words) && encoded_embedding(words) == bytes,
{
    let words = decoded_words(bytes);
    let n = bytes.len() / 4;
    assert(bytes.len() == 4 * n) by {
        lemma_quarter_split(bytes.len() as int);
    }
    let again = encoded_embedding(words);
    assert forall|k: int| 0 <= k < bytes.len() implies #[trigger] again[k] == bytes[k] by {
        lemma_quarter_split(k);
        let i = k / 4;
        let j = k % 4;
        assert(i < n) by (nonlinear_arith)
            requires
                k == 4 * i + j,
                0 <= j < 4,
                k < 4 * n,
        ;
        lemma_bytes_round_trip(bytes[4 * i], bytes[4 * i + 1], bytes[4 * i + 2], bytes[4 * i + 3]);
        assert(words[i] == word_from_bytes(
            bytes[4 * i],
            bytes[4 * i + 1],
            bytes[4 * i + 2],
            bytes[4 * i + 3],
        ));
    }
    assert(again =~= bytes);
}

/// The bytes stored for an embedding: each component, given as its IEEE-754
/// bit pattern, as four little-endian bytes.
pub fn encode_embedding(embedding: &[u32]) -> (bytes: Vec<u8>)
    requires
        4 * embedding.len() <= usize::MAX,
    ensures
        bytes@ == encoded_embedding(embedding@),
{
    let mut bytes: Vec<u8> = Vec::new();
    let mut i: usize = 0;
    while i < embedding.len()
        invariant
            0 <= i <= embedding.len(),
            4 * embedding.len() <= usize::MAX,
            bytes.len() == 4 * i,
            forall|k: int|
                0 <= k < 4 * i ==> #[trigger] bytes@[k] == word_bytes(embedding@[k / 4])[k % 4],
        decreases embedding.len() - i,
    {
        let w = embedding[i];
        let b0 = (w & 0xff) as u8;
        let b1 = ((w >> 8u32) & 0xff) as u8;
        let b2 = ((w >> 16u32) & 0xff) as u8;
        let b3 = (w >> 24u32) as u8;
        bytes.push(b0);
        bytes.push(b1);
        bytes.push(b2);
        bytes.push(b3);
        proof {
            lemma_quarter(i as int, 0);
            lemma_quarter(i as int, 1);
            lemma_quarter(i as int, 2);
            lemma_quarter(i as int, 3);
            assert forall|k: int| 0 <= k < 4 * (i + 1) implies #[trigger] bytes@[k] == word_bytes(
                embedding@[k / 4],
            )[k % 4] by {
                if k >= 4 * i {
                    lemma_quarter(i as int, k - 4 * i);
                }
            }
        }
        i = i + 1;
    }
    assert(bytes@ =~= encoded_embedding(embedding@));
    bytes
}

/// Reads an embedding back from its bytes: `None` when the length is not a
/// multiple of four, else the components' bit patterns.
pub fn decode_embedding(bytes: &[u8]) -> (embedding: Option<Vec<u32>>)
    ensures
        embedding matches Some(v) ==> embedding_decoding(bytes@) == Some(v@),
        embedding is None ==> embedding_decoding(bytes@) is None,
{
    if bytes.len() % 4 != 0 {
        return None;
    }
    let n = bytes.len() / 4;
    let mut words: Vec<u32> = Vec::new();
    let mut i: usize = 0;
    proof {
        lemma_quarter_split(bytes.len() as int);
    }
    while i < n
        invariant
            0 <= i <= n,
            n == bytes.len() / 4,
            bytes.len() == 4 * n,
            words.len() == i,
            forall|t: int| 0 <= t < i ==> #[trigger] words@[t] == decoded_words(bytes@)[t],
        decreases n - i,
    {
        assert(4 * i + 3 < 4 * n);
        let b0 = bytes[4 * i];
        let b1 = bytes[4 * i + 1];
        let b2 = bytes[4 * i + 2];
        let b3 = bytes[4 * i + 3];
        let w = (b0 as u32) | ((b1 as u32) << 8u32) | ((b2 as u32) << 16u32) | ((b3 as u32)
            << 24u32);
        words.push(w);
        i = i + 1;
    }
    assert(words@ =~= decoded_words(bytes@));
    Some(words)
}

} // verus!
