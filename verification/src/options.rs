//! Options of the command line and of the sparse forward pass.

use vstd::prelude::*;
use crate::error::{NseError, NseResult};
use crate::kernel::KernelKind;
use crate::transmuter::QuantSchemeConfig;

verus! {

/// Which index finds the experts for an input.
#[derive(Debug, Clone, Copy, PartialEq, Eq, Structural)]
pub enum IndexKind {
    /// Compares with every expert.
    Brute,
    /// Searches in a graph.
    Hnsw,
}

impl Default for IndexKind {
    fn default() -> (r: IndexKind)
        ensures
            r == IndexKind::Brute,
    {
        IndexKind::Brute
    }
}

/// How the sparse forward pass computes.
#[derive(Debug, Clone, Copy)]
pub struct SparseOptions {
    pub kernel: KernelKind,
    pub index: IndexKind,
}

/// The reference kernels and comparison with every expert.
pub open spec fn default_options() -> SparseOptions {
    SparseOptions { kernel: KernelKind::Scalar, index: IndexKind::Brute }
}

impl Default for SparseOptions {
    fn default() -> (r: SparseOptions)
        ensures
            r == default_options(),
    {
        SparseOptions { kernel: KernelKind::Scalar, index: IndexKind::Brute }
    }
}

/// How the goodness of a layer is normalised in forward-forward training.
#[derive(Debug, Clone, Copy, PartialEq, Eq, Structural)]
pub enum Homeostasis {
    /// Not at all: the raw goodness counts.
    Raw,
    /// By its running mean and deviation.
    LayerNorm,
}

impl Default for Homeostasis {
    fn default() -> (r: Homeostasis)
        ensures
            r == Homeostasis::Raw,
    {
        Homeostasis::Raw
    }
}

/// Which feed-forward rule a model is evaluated with.
#[derive(Debug, Clone, Copy, PartialEq, Eq, Structural)]
pub enum ForwardKind {
    /// The standard one.
    Gelu,
    /// Retrieval from an associative memory.
    Hopfield,
}

/// The size of the blocks that data is loaded in.
#[derive(Debug, Clone)]
pub struct TilingConfig {
    /// The target size of a tile in bytes.
    pub tile_bytes: usize,
}

impl Default for TilingConfig {
    fn default() -> (r: TilingConfig)
        ensures
            r.tile_bytes == 32 * 1024 * 1024,
    {
        TilingConfig { tile_bytes: 33554432 }
    }
}

/// A letter in lower case, if it is an ASCII letter.
pub open spec fn lower_char(c: char) -> char {
    if 65 <= c as int <= 90 {
        (c as int + 32) as char
    } else {
        c
    }
}

/// A word with its ASCII letters in lower case.
pub open spec fn lower(s: Seq<char>) -> Seq<char> {
    s.map_values(|c: char| lower_char(c))
}

/// Whether `s` is `word` but for the case of its ASCII letters.
fn is_word(s: &str, word: &str) -> (r: bool)
    ensures
        r == (lower(s@) == word@),
{
    let n: usize = s.unicode_len();
    if n != word.unicode_len() {
        assert(lower(s@).len() != word@.len());
        return false;
    }
    for i in 0..n
        invariant
            n == s@.len(),
            n == word@.len(),
            forall|j: int| 0 <= j < i ==> lower_char(s@[j]) == #[trigger] word@[j],
    {
        let c = s.get_char(i);
        let w = word.get_char(i);
        let code: u32 = c as u32;
        let low: u32 = if 65 <= code && code <= 90 {
            code + 32
        } else {
            code
        };
        if low != w as u32 {
            assert(lower(s@)[i as int] != word@[i as int]);
            return false;
        }
    }
    assert(lower(s@) =~= word@);
    true
}

/// The text of the error for a value that is none of the expected ones.
pub open spec fn invalid_text(before: Seq<char>, value: Seq<char>, after: Seq<char>) -> Seq<char> {
    before + value + after
}

fn invalid<T>(before: &str, value: &str, after: &str) -> (r: NseResult<T>)
    ensures
        r matches Err(NseError::Other(m)) && m@ == invalid_text(before@, value@, after@),
{
    let mut m = String::from_str(before);
    m.append(value);
    m.append(after);
    Err(NseError::Other(m))
}

/// The kernels that a word names, in any case.
pub fn parse_kernel(s: &str) -> (r: NseResult<KernelKind>)
    ensures
        match r {
            Ok(k) => {
                ||| k == KernelKind::Scalar && lower(s@) == "scalar"@
                ||| k == KernelKind::Avx2 && lower(s@) == "avx2"@
                ||| k == KernelKind::Auto && lower(s@) == "auto"@
            },
            Err(e) => {
                &&& lower(s@) != "scalar"@ && lower(s@) != "avx2"@ && lower(s@) != "auto"@
                &&& e matches NseError::Other(m) && m@ == invalid_text(
                    "invalid --kernel '"@,
                    s@,
                    "': expected scalar|avx2|auto"@,
                )
            },
        },
{
    if is_word(s, "scalar") {
        Ok(KernelKind::Scalar)
    } else if is_word(s, "avx2") {
        Ok(KernelKind::Avx2)
    } else if is_word(s, "auto") {
        Ok(KernelKind::Auto)
    } else {
        invalid("invalid --kernel '", s, "': expected scalar|avx2|auto")
    }
}

/// The index that a word names, in any case.
pub fn parse_index(s: &str) -> (r: NseResult<IndexKind>)
    ensures
        match r {
            Ok(k) => {
                ||| k == IndexKind::Brute && lower(s@) == "brute"@
                ||| k == IndexKind::Hnsw && lower(s@) == "hnsw"@
            },
            Err(e) => {
                &&& lower(s@) != "brute"@ && lower(s@) != "hnsw"@
                &&& e matches NseError::Other(m) && m@ == invalid_text(
                    "invalid --index '"@,
                    s@,
                    "': expected brute|hnsw"@,
                )
            },
        },
{
    if is_word(s, "brute") {
        Ok(IndexKind::Brute)
    } else if is_word(s, "hnsw") {
        Ok(IndexKind::Hnsw)
    } else {
        invalid("invalid --index '", s, "': expected brute|hnsw")
    }
}

/// The homeostasis that a word names, in any case.
pub fn parse_homeostasis(s: &str) -> (r: NseResult<Homeostasis>)
    ensures
        match r {
            Ok(h) => {
                ||| h == Homeostasis::Raw && lower(s@) == "none"@
                ||| h == Homeostasis::LayerNorm && lower(s@) == "layernorm"@
            },
            Err(e) => {
                &&& lower(s@) != "none"@ && lower(s@) != "layernorm"@
                &&& e matches NseError::Other(m) && m@ == invalid_text(
                    "invalid --homeostasis '"@,
                    s@,
                    "': expected none|layernorm"@,
                )
            },
        },
{
    if is_word(s, "none") {
        Ok(Homeostasis::Raw)
    } else if is_word(s, "layernorm") {
        Ok(Homeostasis::LayerNorm)
    } else {
        invalid("invalid --homeostasis '", s, "': expected none|layernorm")
    }
}

/// The feed-forward rule that a word names, in any case.
pub fn parse_forward(s: &str) -> (r: NseResult<ForwardKind>)
    ensures
        match r {
            Ok(f) => {
                ||| f == ForwardKind::Gelu && lower(s@) == "gelu"@
                ||| f == ForwardKind::Hopfield && lower(s@) == "hopfield"@
            },
            Err(e) => {
                &&& lower(s@) != "gelu"@ && lower(s@) != "hopfield"@
                &&& e matches NseError::Other(m) && m@ == invalid_text(
                    "invalid --forward '"@,
                    s@,
                    "': expected gelu|hopfield"@,
                )
            },
        },
{
    if is_word(s, "gelu") {
        Ok(ForwardKind::Gelu)
    } else if is_word(s, "hopfield") {
        Ok(ForwardKind::Hopfield)
    } else {
        invalid("invalid --forward '", s, "': expected gelu|hopfield")
    }
}

/// Whether two words are equal.
fn same_word(s: &str, word: &str) -> (r: bool)
    ensures
        r == (s@ == word@),
{
    let n: usize = s.unicode_len();
    if n != word.unicode_len() {
        return false;
    }
    for i in 0..n
        invariant
            n == s@.len(),
            n == word@.len(),
            forall|j: int| 0 <= j < i ==> s@[j] == word@[j],
    {
        if s.get_char(i) != word.get_char(i) {
            return false;
        }
    }
    assert(s@ =~= word@);
    true
}

/// The quantisation that a word names, in lower case. Product quantisation takes twenty
/// rounds of k-means, started by seed seven.
pub fn parse_quant(s: &str, pq_subvectors: usize, pq_nbits: usize) -> (r: NseResult<QuantSchemeConfig>)
    ensures
        match r {
            Ok(q) => {
                ||| q == QuantSchemeConfig::Ternary && s@ == "ternary"@
                ||| q == (QuantSchemeConfig::Pq {
                    num_sub_vectors: pq_subvectors,
                    nbits: pq_nbits,
                    iters: 20,
                    seed: 7,
                }) && s@ == "pq"@
            },
            Err(e) => {
                &&& s@ != "ternary"@ && s@ != "pq"@
                &&& e matches NseError::Other(m) && m@ == invalid_text(
                    "unknown --quant value '"@,
                    s@,
                    "': expected 'ternary' or 'pq'"@,
                )
            },
        },
{
    if same_word(s, "ternary") {
        Ok(QuantSchemeConfig::Ternary)
    } else if same_word(s, "pq") {
        Ok(
            QuantSchemeConfig::Pq {
                num_sub_vectors: pq_subvectors,
                nbits: pq_nbits,
                iters: 20,
                seed: 7,
            },
        )
    } else {
        invalid("unknown --quant value '", s, "': expected 'ternary' or 'pq'")
    }
}

/// Whether a mode word asks for threshold routing; every other word activates all
/// experts.
pub fn is_threshold_mode(mode: &str) -> (r: bool)
    ensures
        r == (mode@ == "threshold"@),
{
    same_word(mode, "threshold")
}

} // verus!
