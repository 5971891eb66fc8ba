//! The encoder's settings: which matchers to use, the section format and size, and the
//! secondary compression applied to each section.
use vstd::prelude::*;
use crate::common::{Format, MAX_WIN_SIZE};
use crate::encoder::inner::{GenericEncoderConfig, LargerTrgtNaiveTests};
use crate::encoder::src_matcher::SrcMatcherConfig;
use crate::encoder::ranger::ranger_map_spec;
use crate::encoder::trgt_matcher::{capacity_ok, TrgtMatcherConfig};

verus! {

/// The brotli settings the encoder passes on: each one unset leaves brotli's default.
#[derive(Clone, Copy, Debug, PartialEq, Eq, Structural)]
pub struct BrotliOptions {
    /// Compression quality, 0 (fastest) to 11 (densest).
    pub quality: Option<u8>,
    /// Base two logarithm of the sliding window size, 10 to 24.
    pub window_bits: Option<u8>,
    /// Base two logarithm of the input block size, 16 to 24.
    pub block_bits: Option<u8>,
    /// The kind of input to tune the compressor for.
    pub mode: Option<BrotliMode>,
}

/// The kinds of input brotli can tune its compressor for.
#[derive(Clone, Copy, Debug, PartialEq, Eq, Structural)]
pub enum BrotliMode {
    /// Nothing is known of the input.
    Generic,
    /// UTF-8 text.
    Text,
    /// WOFF 2.0 fonts.
    Font,
}

impl BrotliOptions {
    /// All settings left to brotli's defaults.
    pub fn new() -> (r: Self)
        ensures
            r == (BrotliOptions { quality: None, window_bits: None, block_bits: None, mode: None }),
    {
        BrotliOptions { quality: None, window_bits: None, block_bits: None, mode: None }
    }
}

impl Default for BrotliOptions {
    fn default() -> (r: Self)
        ensures
            r == (BrotliOptions { quality: None, window_bits: None, block_bits: None, mode: None }),
    {
        BrotliOptions::new()
    }
}

/// The secondary compression algorithm to use.
/// Default Value: Zstd { level: 3 }
#[derive(Clone, Copy, Debug)]
pub enum SecondaryCompression {
    /// A nested SMDIFF patch of the section, made by the target matcher.
    /// Default Value: TrgtMatcherConfig::comp_level(3)
    Smdiff(TrgtMatcherConfig),
    /// Value of 1..=22.
    /// Default Value: 3
    Zstd { level: i32 },
    /// Default Value: BrotliOptions::default()
    Brotli { options: BrotliOptions },
}

/// The value of the compression field of a section header, per the spec: 1 for a nested
/// SMDIFF patch, 2 for zstd, and for brotli 4, the first of the values the spec leaves to
/// other compressors (3 is lzma2_xz).
pub open spec fn algo_value_spec(c: SecondaryCompression) -> u8 {
    match c {
        SecondaryCompression::Smdiff(_) => 1,
        SecondaryCompression::Zstd { .. } => 2,
        SecondaryCompression::Brotli { .. } => 4,
    }
}

impl SecondaryCompression {
    pub fn new_smdiff_default() -> (r: Self)
        ensures
            r matches SecondaryCompression::Smdiff(c) && c.compress_early_exit == ranger_map_spec(0, 10, 6, 70, 3)
                && c.chain_check == ranger_map_spec(0, 10, 1, 33, 3) && c.prev_table_capacity is None,
    {
        SecondaryCompression::Smdiff(TrgtMatcherConfig::comp_level(3))
    }

    pub fn new_zstd_default() -> (r: Self)
        ensures
            r == (SecondaryCompression::Zstd { level: 3 }),
    {
        SecondaryCompression::Zstd { level: 3 }
    }

    pub fn new_brotli_default() -> (r: Self)
        ensures
            r == (SecondaryCompression::Brotli { options: BrotliOptions { quality: None, window_bits: None, block_bits: None, mode: None } }),
    {
        SecondaryCompression::Brotli { options: BrotliOptions::default() }
    }

    /// Returns the value to use in the header. Per the spec.
    pub fn algo_value(&self) -> (r: u8)
        ensures
            r == algo_value_spec(*self),
    {
        match self {
            SecondaryCompression::Smdiff(_) => 1,
            SecondaryCompression::Zstd { .. } => 2,
            SecondaryCompression::Brotli { .. } => 4,
        }
    }
}

impl Default for SecondaryCompression {
    fn default() -> (r: Self)
        ensures
            r == (SecondaryCompression::Zstd { level: 3 }),
    {
        Self::new_zstd_default()
    }
}

/// Configuration for the encoder.
///
/// Default values are:
/// - match_src: Some(SrcMatcherConfig::comp_level(3))
/// - match_trgt: None
/// - sec_comp: None
/// - format: Interleaved
/// - output_segment_size: MAX_WIN_SIZE
/// - naive_tests: None
/// - lazy_escape_len: Some(45)
#[derive(Clone, Copy, Debug)]
pub struct EncoderConfig {
    /// Do we consider the src file as a dictionary to find matches?
    /// If so (Some(_)), any preferences set in the MatcherConfig will be used.
    pub match_src: Option<SrcMatcherConfig>,
    /// Whether to use the output file in an attempt to compress itself.
    /// If so (Some(_)), any preferences set in the MatcherConfig will be used.
    pub match_trgt: Option<TrgtMatcherConfig>,
    /// None for no secondary compression.
    pub sec_comp: Option<SecondaryCompression>,
    /// Whether to interleave or segregate the Add bytes.
    pub format: Format,
    /// The size of the output window. The minimum value is MAX_INST_SIZE.
    pub output_segment_size: usize,
    /// The types of naive tests to run.
    pub naive_tests: Option<LargerTrgtNaiveTests>,
    /// The length of a match that will end the lazy matching sequence.
    pub lazy_escape_len: Option<usize>,
}

impl EncoderConfig {
    /// The matchers can be built with these settings (a target matcher's chain capacity is
    /// 0 or a power of two, a source window at most a quarter of the address space), the
    /// nested patches of secondary compression included.
    pub open spec fn buildable(&self) -> bool {
        &&& self.inner().buildable()
        &&& self.sec_comp matches Some(SecondaryCompression::Smdiff(c)) ==> (c.prev_table_capacity matches Some(t) ==> capacity_ok(t))
    }

    /// The settings of the match finder.
    pub open spec fn inner(&self) -> GenericEncoderConfig {
        GenericEncoderConfig {
            match_trgt: self.match_trgt,
            match_src: self.match_src,
            lazy_escape_len: self.lazy_escape_len,
            naive_tests: self.naive_tests,
        }
    }

    pub fn new() -> (r: Self)
        ensures
            r.match_src matches Some(m) && m.l_step == ranger_map_spec(0, 10, 26, 2, 3) && m.max_src_win_size is None,
            r.match_trgt is None,
            r.sec_comp is None,
            r.format == Format::Interleaved,
            r.output_segment_size == MAX_WIN_SIZE,
            r.naive_tests is None,
            r.lazy_escape_len == Some(45usize),
    {
        Self::default()
    }

    pub fn no_match_src(self) -> (r: Self)
        ensures
            r == (EncoderConfig { match_src: None, ..self }),
    {
        EncoderConfig { match_src: None, ..self }
    }

    pub fn no_match_target(self) -> (r: Self)
        ensures
            r == (EncoderConfig { match_trgt: None, ..self }),
    {
        EncoderConfig { match_trgt: None, ..self }
    }

    pub fn no_sec_comp(self) -> (r: Self)
        ensures
            r == (EncoderConfig { sec_comp: None, ..self }),
    {
        EncoderConfig { sec_comp: None, ..self }
    }

    pub fn set_match_src(self, config: SrcMatcherConfig) -> (r: Self)
        ensures
            r == (EncoderConfig { match_src: Some(config), ..self }),
    {
        EncoderConfig { match_src: Some(config), ..self }
    }

    pub fn set_sec_comp(self, sec_comp: SecondaryCompression) -> (r: Self)
        ensures
            r == (EncoderConfig { sec_comp: Some(sec_comp), ..self }),
    {
        EncoderConfig { sec_comp: Some(sec_comp), ..self }
    }

    pub fn format_interleaved(self) -> (r: Self)
        ensures
            r == (EncoderConfig { format: Format::Interleaved, ..self }),
    {
        EncoderConfig { format: Format::Interleaved, ..self }
    }

    pub fn format_segregated(self) -> (r: Self)
        ensures
            r == (EncoderConfig { format: Format::Segregated, ..self }),
    {
        EncoderConfig { format: Format::Segregated, ..self }
    }

    pub fn set_match_target(self, config: TrgtMatcherConfig) -> (r: Self)
        ensures
            r == (EncoderConfig { match_trgt: Some(config), ..self }),
    {
        EncoderConfig { match_trgt: Some(config), ..self }
    }

    pub fn set_output_segment_size(self, size: usize) -> (r: Self)
        ensures
            r == (EncoderConfig { output_segment_size: size, ..self }),
    {
        EncoderConfig { output_segment_size: size, ..self }
    }

    pub fn set_naive_tests(self, tests: LargerTrgtNaiveTests) -> (r: Self)
        ensures
            r == (EncoderConfig { naive_tests: Some(tests), ..self }),
    {
        EncoderConfig { naive_tests: Some(tests), ..self }
    }

    pub fn set_lazy_escape_len(self, len: usize) -> (r: Self)
        ensures
            r == (EncoderConfig { lazy_escape_len: Some(len), ..self }),
    {
        EncoderConfig { lazy_escape_len: Some(len), ..self }
    }

    /// Use the short hand compression level.
    /// If match_trgt is true, the same compression level will be used to set the TrgtMatcherConfig.
    /// If secondary compression is Some(_), the format will be Segregated, else Interleaved.
    pub fn comp_level(level: usize, match_trgt: bool, sec_comp: Option<SecondaryCompression>) -> (r: Self)
        requires
            level <= 9,
        ensures
            r.match_src matches Some(m) && m.l_step == ranger_map_spec(0, 10, 26, 2, level as int) && m.max_src_win_size is None,
            match_trgt <==> r.match_trgt is Some,
            r.match_trgt matches Some(t) ==> t.compress_early_exit == ranger_map_spec(0, 10, 6, 70, level as int)
                && t.chain_check == ranger_map_spec(0, 10, 1, 33, level as int) && t.prev_table_capacity is None,
            r.sec_comp == sec_comp,
            r.format == (if sec_comp is Some { Format::Segregated } else { Format::Interleaved }),
            r.output_segment_size == MAX_WIN_SIZE,
            r.naive_tests is None,
            r.lazy_escape_len is None,
    {
        let match_trgt = if match_trgt {
            Some(TrgtMatcherConfig::comp_level(level))
        } else {
            None
        };
        let format = if sec_comp.is_some() {
            Format::Segregated
        } else {
            Format::Interleaved
        };
        EncoderConfig {
            match_src: Some(SrcMatcherConfig::comp_level(level)),
            output_segment_size: MAX_WIN_SIZE,
            format,
            match_trgt,
            sec_comp,
            naive_tests: None,
            lazy_escape_len: None,
        }
    }
}

impl Default for EncoderConfig {
    fn default() -> (r: Self)
        ensures
            r.match_src matches Some(m) && m.l_step == ranger_map_spec(0, 10, 26, 2, 3) && m.max_src_win_size is None,
            r.match_trgt is None,
            r.sec_comp is None,
            r.format == Format::Interleaved,
            r.output_segment_size == MAX_WIN_SIZE,
            r.naive_tests is None,
            r.lazy_escape_len == Some(45usize),
    {
        EncoderConfig {
            match_src: Some(SrcMatcherConfig::comp_level(3)),
            output_segment_size: MAX_WIN_SIZE,
            format: Format::Interleaved,
            match_trgt: None,
            sec_comp: None,
            naive_tests: None,
            lazy_escape_len: Some(45),
        }
    }
}

} // verus!
