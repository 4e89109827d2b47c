//! The sizes of a model.

use vstd::prelude::*;
use crate::sparse::ConfigStub;

verus! {

/// The sizes of a model.
#[derive(Debug, Clone, PartialEq, Eq)]
pub struct Config {
    /// The number of different tokens.
    pub vocab_size: usize,
    /// The width of the hidden state.
    pub dim: usize,
    /// The number of transformer layers.
    pub num_layers: usize,
    /// The number of attention heads.
    pub num_heads: usize,
    /// The longest sequence.
    pub max_seq_len: usize,
    /// The width inside the feed-forward block.
    pub ff_dim: usize,
}

impl Config {
    /// A small model over the given vocabulary.
    pub fn toy_default(vocab_size: usize) -> (r: Self)
        ensures
            r == (Config {
                vocab_size,
                dim: 128,
                num_layers: 2,
                num_heads: 4,
                max_seq_len: 256,
                ff_dim: 512,
            }),
    {
        Config { vocab_size, dim: 128, num_layers: 2, num_heads: 4, max_seq_len: 256, ff_dim: 512 }
    }

    /// A copy.
    pub fn copied(&self) -> (r: Self)
        ensures
            r == *self,
    {
        Config {
            vocab_size: self.vocab_size,
            dim: self.dim,
            num_layers: self.num_layers,
            num_heads: self.num_heads,
            max_seq_len: self.max_seq_len,
            ff_dim: self.ff_dim,
        }
    }
}

impl Default for Config {
    /// A small model over all bytes.
    fn default() -> (r: Config)
        ensures
            r == (Config {
                vocab_size: 256,
                dim: 128,
                num_layers: 2,
                num_heads: 4,
                max_seq_len: 256,
                ff_dim: 512,
            }),
    {
        Config::toy_default(256)
    }
}

/// The stub with the sizes of `c`.
pub open spec fn stub_of(c: Config) -> ConfigStub {
    ConfigStub {
        vocab_size: c.vocab_size,
        dim: c.dim,
        num_layers: c.num_layers,
        num_heads: c.num_heads,
        max_seq_len: c.max_seq_len,
        ff_dim: c.ff_dim,
    }
}

/// The configuration with the sizes of `s`.
pub open spec fn config_of(s: ConfigStub) -> Config {
    Config {
        vocab_size: s.vocab_size,
        dim: s.dim,
        num_layers: s.num_layers,
        num_heads: s.num_heads,
        max_seq_len: s.max_seq_len,
        ff_dim: s.ff_dim,
    }
}

impl From<Config> for ConfigStub {
    fn from(c: Config) -> (r: ConfigStub) {
        ConfigStub {
            vocab_size: c.vocab_size,
            dim: c.dim,
            num_layers: c.num_layers,
            num_heads: c.num_heads,
            max_seq_len: c.max_seq_len,
            ff_dim: c.ff_dim,
        }
    }
}

impl vstd::std_specs::convert::FromSpecImpl<Config> for ConfigStub {
    open spec fn obeys_from_spec() -> bool {
        true
    }

    open spec fn from_spec(c: Config) -> ConfigStub {
        stub_of(c)
    }
}

impl From<ConfigStub> for Config {
    fn from(s: ConfigStub) -> (r: Config) {
        Config {
            vocab_size: s.vocab_size,
            dim: s.dim,
            num_layers: s.num_layers,
            num_heads: s.num_heads,
            max_seq_len: s.max_seq_len,
            ff_dim: s.ff_dim,
        }
    }
}

impl vstd::std_specs::convert::FromSpecImpl<ConfigStub> for Config {
    open spec fn obeys_from_spec() -> bool {
        true
    }

    open spec fn from_spec(s: ConfigStub) -> Config {
        config_of(s)
    }
}

/// Converting to the stub and back, in either order, changes nothing.
pub proof fn law_config_stub_roundtrip(c: Config, s: ConfigStub)
    ensures
        config_of(stub_of(c)) == c,
        stub_of(config_of(s)) == s,
{
}

} // verus!
