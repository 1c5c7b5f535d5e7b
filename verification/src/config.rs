//! The configuration of a layer.

use vstd::prelude::*;

verus! {

/// Operational mode of the recurrence.
#[derive(Clone, Copy, Debug, PartialEq, Eq, Structural)]
pub enum Gdn2Mode {
    /// Token-by-token scan, best for inference. The state is carried across tokens.
    FusedRecurrent,
    /// Chunked scan, best for training: chunks of `chunk_size` tokens by matrix products.
    Chunk,
}

/// A nonnegative rational number, `num / den`.
#[derive(Clone, Copy, Debug, PartialEq, Eq, Structural)]
pub struct Ratio {
    pub num: u64,
    pub den: u64,
}

impl Ratio {
    /// Whether this is a number above zero.
    pub open spec fn positive(self) -> bool {
        self.num > 0 && self.den > 0
    }
}

/// Configuration of a layer.
#[derive(Clone, Copy, Debug)]
pub struct Gdn2Config {
    /// Hidden size of the input.
    pub hidden_size: usize,
    /// Number of query and key heads.
    pub num_heads: usize,
    /// Channels per query and key head.
    pub head_dim: usize,
    /// Value channels per key channel: a value head has `head_dim * expand_v` channels, which must
    /// be an integer.
    pub expand_v: Ratio,
    /// Number of value heads, a multiple of `num_heads`. If `None`, equals `num_heads`. With more
    /// value heads than key heads each key head serves several of them.
    pub num_v_heads: Option<usize>,
    /// Whether a short convolution comes before the recurrence.
    pub use_short_conv: bool,
    /// Whether the erase gate reaches up to 2 in place of 1, so that the state transition can have
    /// negative eigenvalues.
    pub allow_neg_eigval: bool,
    /// Epsilon of the output normalization.
    pub norm_eps: Ratio,
    /// Forward mode.
    pub mode: Gdn2Mode,
    /// Tokens per chunk in `Chunk` mode.
    pub chunk_size: usize,
    /// Lower bound of the decays, if any. Adds a learned factor per channel.
    pub min_decay: Option<Ratio>,
}

/// Why a configuration is invalid.
#[derive(Clone, Copy, Debug, PartialEq, Eq, Structural)]
pub enum ConfigError {
    /// `hidden_size` is zero.
    HiddenSize,
    /// `num_heads` is zero.
    NumHeads,
    /// `head_dim` is zero.
    HeadDim,
    /// `expand_v` is not positive, or `head_dim * expand_v` is not an integer.
    ExpandV { expand_v: Ratio, head_dim: usize },
    /// `num_v_heads` is zero.
    NumVHeads,
    /// There are fewer value heads than key heads.
    FewerVHeads { num_v_heads: usize, num_heads: usize },
    /// `num_v_heads` is not a multiple of `num_heads`.
    UnevenVHeads { num_v_heads: usize, num_heads: usize },
    /// `chunk_size` is zero.
    ChunkSize,
    /// `norm_eps` is not positive.
    NormEps { norm_eps: Ratio },
}

impl ConfigError {
    /// What `message` returns.
    pub open spec fn text(self) -> Seq<char> {
        match self {
            ConfigError::HiddenSize => "hidden_size must be > 0"@,
            ConfigError::NumHeads => "num_heads must be > 0"@,
            ConfigError::HeadDim => "head_dim must be > 0"@,
            ConfigError::ExpandV { .. } =>
                "expand_v must produce an integer head_v_dim when multiplied by head_dim"@,
            ConfigError::NumVHeads => "num_v_heads must be > 0"@,
            ConfigError::FewerVHeads { .. } =>
                "num_v_heads < num_heads is not supported; use num_v_heads >= num_heads"@,
            ConfigError::UnevenVHeads { .. } => "num_v_heads must be divisible by num_heads"@,
            ConfigError::ChunkSize => "chunk_size must be > 0"@,
            ConfigError::NormEps { .. } => "norm_eps must be > 0"@,
        }
    }

    /// The rule that is broken, in words.
    pub fn message(&self) -> (r: &'static str)
        ensures
            r@ == self.text(),
    {
        match self {
            ConfigError::HiddenSize => "hidden_size must be > 0",
            ConfigError::NumHeads => "num_heads must be > 0",
            ConfigError::HeadDim => "head_dim must be > 0",
            ConfigError::ExpandV { .. } =>
                "expand_v must produce an integer head_v_dim when multiplied by head_dim",
            ConfigError::NumVHeads => "num_v_heads must be > 0",
            ConfigError::FewerVHeads { .. } =>
                "num_v_heads < num_heads is not supported; use num_v_heads >= num_heads",
            ConfigError::UnevenVHeads { .. } => "num_v_heads must be divisible by num_heads",
            ConfigError::ChunkSize => "chunk_size must be > 0",
            ConfigError::NormEps { .. } => "norm_eps must be > 0",
        }
    }
}

/// The extents that follow from a configuration.
#[derive(Clone, Copy, Debug, PartialEq, Eq, Structural)]
pub struct Dims {
    /// Key heads.
    pub heads: usize,
    /// Value heads.
    pub v_heads: usize,
    /// Channels per key head.
    pub head_dim: usize,
    /// Channels per value head.
    pub v_head_dim: usize,
    /// Key channels over all heads.
    pub key_dim: usize,
    /// Value channels over all heads.
    pub value_dim: usize,
    /// Value heads per key head.
    pub repeat: usize,
}

impl Gdn2Config {
    /// Number of value heads.
    pub open spec fn v_heads(self) -> int {
        match self.num_v_heads {
            Some(hv) => hv as int,
            None => self.num_heads as int,
        }
    }

    /// Key channels over all heads.
    pub open spec fn key_dim(self) -> int {
        self.num_heads * self.head_dim
    }

    /// Channels per value head.
    pub open spec fn v_head_dim(self) -> int {
        (self.head_dim * self.expand_v.num) / (self.expand_v.den as int)
    }

    /// Value channels over all heads.
    pub open spec fn value_dim(self) -> int {
        self.v_heads() * self.v_head_dim()
    }

    /// Value heads per key head.
    pub open spec fn repeat(self) -> int {
        self.v_heads() / (self.num_heads as int)
    }

    /// Whether a value head has a whole number of channels, more than none.
    pub open spec fn whole_v_head(self) -> bool {
        self.expand_v.positive() && (self.head_dim * self.expand_v.num) % (self.expand_v.den as int)
            == 0
    }

    /// Whether the configuration is valid.
    pub open spec fn valid(self) -> bool {
        &&& self.hidden_size > 0
        &&& self.num_heads > 0
        &&& self.head_dim > 0
        &&& self.whole_v_head()
        &&& self.num_v_heads matches Some(hv) ==> hv >= self.num_heads && hv as int
            % self.num_heads as int == 0
        &&& self.chunk_size > 0
        &&& self.norm_eps.positive()
    }

    /// The first rule that is broken, if any.
    pub open spec fn verdict(self) -> Result<(), ConfigError> {
        if self.hidden_size == 0 {
            Err(ConfigError::HiddenSize)
        } else if self.num_heads == 0 {
            Err(ConfigError::NumHeads)
        } else if self.head_dim == 0 {
            Err(ConfigError::HeadDim)
        } else if !self.whole_v_head() {
            Err(ConfigError::ExpandV { expand_v: self.expand_v, head_dim: self.head_dim })
        } else if self.num_v_heads == Some(0usize) {
            Err(ConfigError::NumVHeads)
        } else if self.v_heads() < self.num_heads {
            Err(
                ConfigError::FewerVHeads {
                    num_v_heads: self.num_v_heads->0,
                    num_heads: self.num_heads,
                },
            )
        } else if self.v_heads() % (self.num_heads as int) != 0 {
            Err(
                ConfigError::UnevenVHeads {
                    num_v_heads: self.num_v_heads->0,
                    num_heads: self.num_heads,
                },
            )
        } else if self.chunk_size == 0 {
            Err(ConfigError::ChunkSize)
        } else if !self.norm_eps.positive() {
            Err(ConfigError::NormEps { norm_eps: self.norm_eps })
        } else {
            Ok(())
        }
    }

    /// Validates the configuration: the first rule that is broken, if any.
    pub fn validate(&self) -> (r: Result<(), ConfigError>)
        ensures
            r == self.verdict(),
            r is Ok == self.valid(),
    {
        let h: usize = self.num_heads;
        if self.hidden_size == 0 {
            return Err(ConfigError::HiddenSize);
        }
        if h == 0 {
            return Err(ConfigError::NumHeads);
        }
        if self.head_dim == 0 {
            return Err(ConfigError::HeadDim);
        }
        if !self.has_whole_v_head() {
            return Err(
                ConfigError::ExpandV { expand_v: self.expand_v, head_dim: self.head_dim },
            );
        }
        if let Some(hv) = self.num_v_heads {
            if hv == 0 {
                return Err(ConfigError::NumVHeads);
            }
            if hv < h {
                return Err(ConfigError::FewerVHeads { num_v_heads: hv, num_heads: h });
            }
            if hv % h != 0 {
                return Err(ConfigError::UnevenVHeads { num_v_heads: hv, num_heads: h });
            }
        }
        assert(self.num_v_heads is None ==> self.v_heads() % (h as int) == 0) by {
            vstd::arithmetic::div_mod::lemma_mod_self_0(h as int);
        }
        if self.chunk_size == 0 {
            return Err(ConfigError::ChunkSize);
        }
        if self.norm_eps.num == 0 || self.norm_eps.den == 0 {
            return Err(ConfigError::NormEps { norm_eps: self.norm_eps });
        }
        Ok(())
    }

    /// Whether a value head has a whole number of channels, more than none.
    fn has_whole_v_head(&self) -> (r: bool)
        ensures
            r == self.whole_v_head(),
    {
        if self.expand_v.num == 0 || self.expand_v.den == 0 {
            return false;
        }
        self.scaled_head_dim() % (self.expand_v.den as u128) == 0
    }

    /// `head_dim * expand_v.num`.
    fn scaled_head_dim(&self) -> (r: u128)
        ensures
            r == self.head_dim * self.expand_v.num,
    {
        let (a, b): (u128, u128) = (self.head_dim as u128, self.expand_v.num as u128);
        assert(a * b <= 0xffff_ffff_ffff_ffff * 0xffff_ffff_ffff_ffff) by (nonlinear_arith)
            requires
                a <= 0xffff_ffff_ffff_ffff,
                b <= 0xffff_ffff_ffff_ffff,
        ;
        a * b
    }

    /// The extents can be counted.
    pub open spec fn countable(self) -> bool {
        &&& self.key_dim() <= usize::MAX
        &&& self.v_head_dim() <= usize::MAX
        &&& self.value_dim() <= usize::MAX
    }

    /// The extents that follow from the configuration.
    pub fn dims(&self) -> (r: Dims)
        requires
            self.valid(),
            self.countable(),
        ensures
            r.heads == self.num_heads,
            r.v_heads == self.v_heads(),
            r.head_dim == self.head_dim,
            r.v_head_dim == self.v_head_dim(),
            r.key_dim == self.key_dim(),
            r.value_dim == self.value_dim(),
            r.repeat == self.repeat(),
    {
        let v_heads: usize = match self.num_v_heads {
            Some(hv) => hv,
            None => self.num_heads,
        };
        let v_head_dim: usize = (self.scaled_head_dim() / (self.expand_v.den as u128)) as usize;
        Dims {
            heads: self.num_heads,
            v_heads,
            head_dim: self.head_dim,
            v_head_dim,
            key_dim: self.num_heads * self.head_dim,
            value_dim: v_heads * v_head_dim,
            repeat: v_heads / self.num_heads,
        }
    }

    /// In a valid configuration every extent is positive, a value head has exactly
    /// `head_dim * expand_v` channels, and the value heads fall evenly to the key heads.
    pub proof fn valid_extents(self)
        requires
            self.valid(),
        ensures
            self.key_dim() >= 1,
            self.v_head_dim() >= 1,
            self.v_head_dim() * self.expand_v.den == self.head_dim * self.expand_v.num,
            self.value_dim() >= 1,
            self.repeat() >= 1,
            self.repeat() * self.num_heads == self.v_heads(),
    {
        let (h, d, n, m) = (
            self.num_heads as int,
            self.head_dim as int,
            self.expand_v.num as int,
            self.expand_v.den as int,
        );
        let (hv, v) = (self.v_heads(), self.v_head_dim());
        assert(h * d >= 1) by (nonlinear_arith)
            requires
                h >= 1,
                d >= 1,
        ;
        assert(v >= 1 && v * m == d * n) by (nonlinear_arith)
            requires
                d >= 1,
                n >= 1,
                m >= 1,
                (d * n) % m == 0,
                v == (d * n) / m,
        {
            assert(d * n >= 1);
        }
        if self.num_v_heads is None {
            vstd::arithmetic::div_mod::lemma_mod_self_0(h);
        }
        assert(hv / h >= 1 && hv / h * h == hv) by (nonlinear_arith)
            requires
                h >= 1,
                hv >= h,
                hv % h == 0,
        ;
        assert(hv * v >= 1) by (nonlinear_arith)
            requires
                hv >= 1,
                v >= 1,
        ;
    }
}

impl Default for Gdn2Config {
    fn default() -> (r: Self)
        ensures
            r.hidden_size == 2048,
            r.num_heads == 16,
            r.head_dim == 128,
            r.expand_v == (Ratio { num: 1, den: 1 }),
            r.num_v_heads is None,
            r.use_short_conv,
            !r.allow_neg_eigval,
            r.norm_eps == (Ratio { num: 1, den: 100_000 }),
            r.mode == Gdn2Mode::FusedRecurrent,
            r.chunk_size == 64,
            r.min_decay is None,
    {
        Gdn2Config {
            hidden_size: 2048,
            num_heads: 16,
            head_dim: 128,
            expand_v: Ratio { num: 1, den: 1 },
            num_v_heads: None,
            use_short_conv: true,
            allow_neg_eigval: false,
            norm_eps: Ratio { num: 1, den: 100_000 },
            mode: Gdn2Mode::FusedRecurrent,
            chunk_size: 64,
            min_decay: None,
        }
    }
}

} // verus!
