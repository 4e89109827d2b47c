//! A tokenizer that maps each byte to one token.

use vstd::prelude::*;

verus! {

/// A byte-level tokenizer.
#[derive(Debug, Clone)]
pub struct Tokenizer {
    /// The token of each byte.
    pub id_by_byte: [u32; 256],
    /// The byte of each token.
    pub byte_by_id: Vec<u8>,
    /// The number of tokens.
    pub vocab_size: usize,
}

/// The tokens of a text.
pub open spec fn encoded_text(ids: Seq<u32>, text: Seq<u8>) -> Seq<u32> {
    text.map_values(|b: u8| ids[b as int])
}

/// The bytes of the first `n` tokens. A token that there is no byte for is left out.
pub open spec fn decoded_ids(bytes: Seq<u8>, ids: Seq<u32>, n: nat) -> Seq<u8>
    decreases n,
{
    if n == 0 {
        Seq::empty()
    } else {
        let front = decoded_ids(bytes, ids, (n - 1) as nat);
        if ids[n - 1] < bytes.len() {
            front.push(bytes[ids[n - 1] as int])
        } else {
            front
        }
    }
}

/// Whether the bytes ascend strictly.
pub open spec fn bytes_ascend(s: Seq<u8>) -> bool {
    forall|i: int, j: int| 0 <= i < j < s.len() ==> s[i] < s[j]
}

impl Tokenizer {
    /// Whether the two maps belong together: the tokens number the bytes in ascending
    /// order, and a byte without a token maps to token 0.
    pub open spec fn wf(&self) -> bool {
        &&& self.vocab_size == self.byte_by_id@.len()
        &&& self.byte_by_id@.len() <= 256
        &&& bytes_ascend(self.byte_by_id@)
        &&& forall|i: int|
            0 <= i < self.byte_by_id@.len() ==> self.id_by_byte@[(
            #[trigger] self.byte_by_id@[i]) as int] == i
        &&& forall|b: u8| !self.byte_by_id@.contains(b) ==> #[trigger] self.id_by_byte@[b as int] == 0
    }

    /// A tokenizer for the bytes that are present.
    fn for_present(present: &[bool; 256]) -> (r: Self)
        ensures
            r.wf(),
            forall|b: u8| #[trigger] r.byte_by_id@.contains(b) <==> present@[b as int],
    {
        let mut byte_by_id: Vec<u8> = Vec::new();
        let mut id_by_byte = [0u32;256];
        for b in 0..256usize
            invariant
                byte_by_id@.len() <= b,
                bytes_ascend(byte_by_id@),
                forall|i: int| 0 <= i < byte_by_id@.len() ==> (#[trigger] byte_by_id@[i]) < b,
                forall|i: int|
                    0 <= i < byte_by_id@.len() ==> id_by_byte@[(
                    #[trigger] byte_by_id@[i]) as int] == i,
                forall|c: u8|
                    c < b && !byte_by_id@.contains(c) ==> #[trigger] id_by_byte@[c as int] == 0,
                forall|c: u8| c < b ==> (#[trigger] byte_by_id@.contains(c) <==> present@[c as int]),
        {
            let ghost before = byte_by_id@;
            let ghost ids = id_by_byte@;
            if present[b] {
                id_by_byte[b] = byte_by_id.len() as u32;
                byte_by_id.push(b as u8);
                proof {
                    assert(byte_by_id@[before.len() as int] == b as u8);
                    assert forall|c: u8| before.contains(c) implies byte_by_id@.contains(c) by {
                        let i = choose|i: int| 0 <= i < before.len() && before[i] == c;
                        assert(byte_by_id@[i] == c);
                    }
                    assert forall|c: u8| byte_by_id@.contains(c) && c != b as u8 implies before.contains(
                        c,
                    ) by {
                        let i = choose|i: int| 0 <= i < byte_by_id@.len() && byte_by_id@[i] == c;
                        assert(before[i] == c);
                    }
                    assert forall|c: u8| c < b + 1 implies (#[trigger] byte_by_id@.contains(c)
                        <==> present@[c as int]) by {
                        if c < b {
                            assert(before.contains(c) <==> present@[c as int]);
                            assert(c != b as u8);
                        } else {
                            assert(c == b as u8);
                        }
                    }
                    assert forall|c: u8|
                        c < b + 1 && !byte_by_id@.contains(c) implies #[trigger] id_by_byte@[c as int]
                        == 0 by {
                        assert(c != b as u8);
                        assert(ids[c as int] == 0);
                    }
                    assert forall|i: int| 0 <= i < byte_by_id@.len() implies id_by_byte@[(
                    #[trigger] byte_by_id@[i]) as int] == i by {
                        if i < before.len() {
                            assert(before[i] < b);
                            assert(ids[before[i] as int] == i);
                        }
                    }
                }
            } else {
                id_by_byte[b] = 0;
                proof {
                    assert forall|c: u8|
                        c < b + 1 && !byte_by_id@.contains(c) implies #[trigger] id_by_byte@[c as int]
                        == 0 by {
                        if c < b {
                            assert(ids[c as int] == 0);
                        }
                    }
                    assert forall|i: int| 0 <= i < byte_by_id@.len() implies id_by_byte@[(
                    #[trigger] byte_by_id@[i]) as int] == i by {
                        assert(byte_by_id@[i] < b);
                        assert(ids[byte_by_id@[i] as int] == i);
                    }
                    assert forall|c: u8| c < b + 1 implies (#[trigger] byte_by_id@.contains(c)
                        <==> present@[c as int]) by {
                        if c == b && byte_by_id@.contains(c) {
                            let i = choose|i: int| 0 <= i < byte_by_id@.len() && byte_by_id@[i] == c;
                            assert(byte_by_id@[i] < b);
                        }
                    }
                }
            }
        }
        let vocab_size: usize = byte_by_id.len();
        Tokenizer { id_by_byte, byte_by_id, vocab_size }
    }

    /// A tokenizer for all bytes.
    pub fn byte_level() -> (r: Self)
        ensures
            r.wf(),
            r.vocab_size == 256,
            forall|b: u8| #[trigger] r.byte_by_id@.contains(b),
            forall|i: int| 0 <= i < 256 ==> #[trigger] r.byte_by_id@[i] == i,
    {
        let present = [true;256];
        let r = Tokenizer::for_present(&present);
        proof {
            lemma_all_bytes(r.byte_by_id@);
        }
        r
    }

    /// A tokenizer for the bytes of a corpus.
    pub fn from_corpus(corpus: &[u8]) -> (r: Self)
        ensures
            r.wf(),
            forall|b: u8| #[trigger] r.byte_by_id@.contains(b) <==> corpus@.contains(b),
    {
        let mut present = [false;256];
        for i in 0..corpus.len()
            invariant
                forall|b: u8| #[trigger] present@[b as int] <==> corpus@.take(i as int).contains(b),
        {
            let c: u8 = corpus[i];
            let ghost before = present@;
            let ghost done = corpus@.take(i as int);
            let ghost now = corpus@.take(i + 1);
            present[c as usize] = true;
            assert forall|b: u8| #[trigger] present@[b as int] <==> now.contains(b) by {
                assert(before[b as int] <==> done.contains(b));
                if done.contains(b) {
                    let j = choose|j: int| 0 <= j < done.len() && done[j] == b;
                    assert(now[j] == b);
                }
                if now.contains(b) && b != c {
                    let j = choose|j: int| 0 <= j < now.len() && now[j] == b;
                    assert(done[j] == b);
                }
                if b == c {
                    assert(now[i as int] == b);
                }
            }
        }
        assert(corpus@.take(corpus@.len() as int) =~= corpus@);
        Tokenizer::for_present(&present)
    }

    /// The tokens of a text.
    pub fn encode(&self, text: &[u8]) -> (r: Vec<u32>)
        ensures
            r@ == encoded_text(self.id_by_byte@, text@),
    {
        let ghost goal = encoded_text(self.id_by_byte@, text@);
        let mut out: Vec<u32> = Vec::with_capacity(text.len());
        for i in 0..text.len()
            invariant
                goal == encoded_text(self.id_by_byte@, text@),
                out@ == goal.take(i as int),
        {
            out.push(self.id_by_byte[text[i] as usize]);
            assert(out@ =~= goal.take(i + 1));
        }
        assert(out@ =~= goal);
        out
    }

    /// The bytes of tokens. A token that there is no byte for is left out.
    pub fn decode(&self, ids: &[u32]) -> (r: Vec<u8>)
        ensures
            r@ == decoded_ids(self.byte_by_id@, ids@, ids@.len()),
    {
        let mut out: Vec<u8> = Vec::with_capacity(ids.len());
        for i in 0..ids.len()
            invariant
                out@ == decoded_ids(self.byte_by_id@, ids@, i as nat),
        {
            let id: usize = ids[i] as usize;
            if id < self.byte_by_id.len() {
                out.push(self.byte_by_id[id]);
            }
        }
        out
    }
}

/// All bytes in ascending order are the numbers from 0 to 255.
proof fn lemma_all_bytes(s: Seq<u8>)
    requires
        bytes_ascend(s),
        s.len() <= 256,
        forall|b: u8| #[trigger] s.contains(b),
    ensures
        s.len() == 256,
        forall|i: int| 0 <= i < 256 ==> #[trigger] s[i] == i,
{
    lemma_ascend_bound(s, 256);
    assert(s.contains(255u8));
    let k = choose|k: int| 0 <= k < s.len() && s[k] == 255u8;
    lemma_dense_prefix(s, 256);
}

proof fn lemma_ascend_bound(s: Seq<u8>, n: nat)
    requires
        bytes_ascend(s),
    ensures
        forall|i: int| 0 <= i < s.len() && i < n ==> #[trigger] s[i] >= i,
    decreases n,
{
    if n > 0 {
        lemma_ascend_bound(s, (n - 1) as nat);
        if 1 < n <= s.len() {
            assert(s[n - 2] < s[n - 1]);
        }
    }
}

proof fn lemma_dense_prefix(s: Seq<u8>, n: nat)
    requires
        bytes_ascend(s),
        n <= 256,
        forall|b: u8| #[trigger] s.contains(b),
    ensures
        n <= s.len(),
        forall|i: int| 0 <= i < n ==> #[trigger] s[i] == i,
    decreases n,
{
    if n > 0 {
        let b = (n - 1) as u8;
        lemma_dense_prefix(s, (n - 1) as nat);
        assert(s.contains(b));
        let k = choose|k: int| 0 <= k < s.len() && s[k] == b;
        lemma_ascend_bound(s, s.len());
        if k < n - 1 {
            assert(s[k] == k);
        }
        assert(s[k] >= k);
        assert(k == n - 1);
    }
}

proof fn lemma_roundtrip(t: Tokenizer, text: Seq<u8>, n: nat)
    requires
        t.wf(),
        n <= text.len(),
        forall|i: int| 0 <= i < text.len() ==> t.byte_by_id@.contains(#[trigger] text[i]),
    ensures
        decoded_ids(t.byte_by_id@, encoded_text(t.id_by_byte@, text), n) == text.take(n as int),
    decreases n,
{
    let ids = encoded_text(t.id_by_byte@, text);
    if n > 0 {
        lemma_roundtrip(t, text, (n - 1) as nat);
        let b = text[n - 1];
        assert(t.byte_by_id@.contains(b));
        let i = choose|i: int| 0 <= i < t.byte_by_id@.len() && t.byte_by_id@[i] == b;
        assert(t.id_by_byte@[t.byte_by_id@[i] as int] == i);
        assert(ids[n - 1] == i);
        assert(text.take(n as int) =~= text.take(n - 1).push(b));
    } else {
        assert(text.take(0) =~= Seq::empty());
    }
}

/// Decoding the tokens of a text gives the text back, if every byte has a token.
pub proof fn law_decode_encode(t: Tokenizer, text: Seq<u8>)
    requires
        t.wf(),
        forall|i: int| 0 <= i < text.len() ==> t.byte_by_id@.contains(#[trigger] text[i]),
    ensures
        decoded_ids(t.byte_by_id@, encoded_text(t.id_by_byte@, text), text.len()) == text,
{
    lemma_roundtrip(t, text, text.len());
    assert(text.take(text.len() as int) =~= text);
}

/// How many of the bytes below `n` occur in a corpus.
pub open spec fn bytes_below(corpus: Seq<u8>, n: nat) -> nat
    decreases n,
{
    if n == 0 {
        0
    } else {
        bytes_below(corpus, (n - 1) as nat) + if corpus.contains((n - 1) as u8) {
            1nat
        } else {
            0nat
        }
    }
}

/// The tokens of a corpus under the tokenizer for its bytes.
pub open spec fn corpus_tokens(corpus: Seq<u8>) -> Seq<u32> {
    corpus.map_values(|b: u8| bytes_below(corpus, b as nat) as u32)
}

proof fn lemma_bytes_below(t: Tokenizer, corpus: Seq<u8>, n: nat)
    requires
        t.wf(),
        forall|b: u8| #[trigger] t.byte_by_id@.contains(b) <==> corpus.contains(b),
        n <= 256,
    ensures
        bytes_below(corpus, n) <= t.byte_by_id@.len(),
        forall|i: int|
            0 <= i < t.byte_by_id@.len() ==> ((#[trigger] t.byte_by_id@[i]) < n <==> i
                < bytes_below(corpus, n)),
    decreases n,
{
    if n > 0 {
        lemma_bytes_below(t, corpus, (n - 1) as nat);
        let s = t.byte_by_id@;
        let b = (n - 1) as u8;
        let k = bytes_below(corpus, (n - 1) as nat);
        if corpus.contains(b) {
            assert(s.contains(b));
            let i = choose|i: int| 0 <= i < s.len() && s[i] == b;
            assert(!(s[i] < n - 1));
            if k < i {
                assert(s[k as int] < s[i]);
            }
            assert(i == k);
            assert forall|j: int| 0 <= j < s.len() implies ((#[trigger] s[j]) < n <==> j < k + 1) by {
                if j > k {
                    assert(s[k as int] < s[j]);
                }
            }
        } else {
            assert forall|j: int| 0 <= j < s.len() implies ((#[trigger] s[j]) < n <==> j < k) by {
                if s[j] == b {
                    assert(s.contains(b));
                }
            }
        }
    }
}

proof fn lemma_bytes_below_grows(corpus: Seq<u8>, a: nat, b: nat)
    requires
        a <= b,
    ensures
        bytes_below(corpus, a) <= bytes_below(corpus, b),
    decreases b,
{
    if a < b {
        lemma_bytes_below_grows(corpus, a, (b - 1) as nat);
    }
}

proof fn lemma_bytes_below_bound(corpus: Seq<u8>, n: nat)
    ensures
        bytes_below(corpus, n) <= n,
    decreases n,
{
    if n > 0 {
        lemma_bytes_below_bound(corpus, (n - 1) as nat);
    }
}

/// Every token of a corpus is less than the number of different bytes in it, which is at
/// most 256.
pub proof fn law_corpus_tokens_bounded(corpus: Seq<u8>)
    ensures
        bytes_below(corpus, 256) <= 256,
        forall|i: int|
            0 <= i < corpus.len() ==> (#[trigger] corpus_tokens(corpus)[i]) < bytes_below(
                corpus,
                256,
            ),
{
    lemma_bytes_below_bound(corpus, 256);
    assert forall|i: int| 0 <= i < corpus.len() implies (#[trigger] corpus_tokens(corpus)[i])
        < bytes_below(corpus, 256) by {
        let b = corpus[i] as nat;
        assert(corpus.contains(corpus[i]));
        assert(b as u8 == corpus[i]);
        lemma_bytes_below_grows(corpus, b, 256);
        lemma_bytes_below_grows(corpus, b + 1, 256);
        assert(bytes_below(corpus, b + 1) == bytes_below(corpus, b) + 1);
    }
}

/// A tokenizer for the bytes of a corpus numbers them in ascending order: the token of a
/// byte is the number of smaller bytes that occur.
pub proof fn law_corpus_tokens(t: Tokenizer, corpus: Seq<u8>)
    requires
        t.wf(),
        forall|b: u8| #[trigger] t.byte_by_id@.contains(b) <==> corpus.contains(b),
    ensures
        encoded_text(t.id_by_byte@, corpus) == corpus_tokens(corpus),
{
    let s = t.byte_by_id@;
    assert forall|j: int| 0 <= j < corpus.len() implies #[trigger] encoded_text(
        t.id_by_byte@,
        corpus,
    )[j] == corpus_tokens(corpus)[j] by {
        let b = corpus[j];
        assert(corpus.contains(b));
        assert(s.contains(b));
        let i = choose|i: int| 0 <= i < s.len() && s[i] == b;
        let k = bytes_below(corpus, b as nat);
        lemma_bytes_below(t, corpus, b as nat);
        assert(!(s[i] < b));
        if k < i {
            assert(s[k as int] < s[i]);
        }
        assert(i == k);
        assert(t.id_by_byte@[s[i] as int] == i);
    }
    assert(encoded_text(t.id_by_byte@, corpus) =~= corpus_tokens(corpus));
}

/// Every token of a text is one of the vocabulary, unless there is none.
pub proof fn law_tokens_in_vocabulary(t: Tokenizer, text: Seq<u8>)
    requires
        t.wf(),
        t.vocab_size > 0,
    ensures
        forall|i: int|
            0 <= i < text.len() ==> (#[trigger] encoded_text(t.id_by_byte@, text)[i])
                < t.vocab_size,
{
    assert forall|i: int| 0 <= i < text.len() implies (#[trigger] encoded_text(
        t.id_by_byte@,
        text,
    )[i]) < t.vocab_size by {
        let b = text[i];
        if t.byte_by_id@.contains(b) {
            let k = choose|k: int| 0 <= k < t.byte_by_id@.len() && t.byte_by_id@[k] == b;
            assert(t.id_by_byte@[t.byte_by_id@[k] as int] == k);
        } else {
            assert(t.id_by_byte@[b as int] == 0);
        }
    }
}

} // verus!
