//! Parser configuration: security limits and schema toggles.
use vstd::prelude::*;

verus! {

/// Policy for handling the YAML merge key (`<<`) during parsing.
#[derive(Debug, Clone, Copy, PartialEq, Eq, Structural)]
pub enum MergeKeyPolicy {
    /// Apply the YAML 1.2 merge-key semantics (default).
    Auto,
    /// Treat `<<` as an ordinary string key.
    AsOrdinary,
    /// Reject any document that contains a `<<` key.
    Error,
}

impl Default for MergeKeyPolicy {
    /// [`MergeKeyPolicy::Auto`].
    fn default() -> (p: Self)
        ensures
            p == MergeKeyPolicy::Auto,
    {
        MergeKeyPolicy::Auto
    }
}

/// Policy for handling duplicate keys in a YAML mapping.
#[derive(Debug, Clone, Copy, PartialEq, Eq, Structural)]
pub enum DuplicateKeyPolicy {
    /// Use the first occurrence of the key; ignore later ones.
    First,
    /// Use the last occurrence of the key (YAML 1.2 default).
    Last,
    /// Return an error if a duplicate key is encountered.
    Error,
}

impl Default for DuplicateKeyPolicy {
    /// [`DuplicateKeyPolicy::Last`].
    fn default() -> (p: Self)
        ensures
            p == DuplicateKeyPolicy::Last,
    {
        DuplicateKeyPolicy::Last
    }
}

/// Deserialization configuration.
#[derive(Debug, Clone)]
pub struct ParserConfig {
    /// Maximum recursion depth allowed during parsing (default: 128).
    pub max_depth: usize,
    /// Maximum length of a single YAML document in bytes (default: 64 MiB).
    pub max_document_length: usize,
    /// Maximum number of times a single anchor can be expanded (default: 1024).
    pub max_alias_expansions: usize,
    /// Maximum number of keys allowed in a single mapping (default: 64 Ki).
    pub max_mapping_keys: usize,
    /// Maximum number of elements allowed in a single sequence (default: 64 Ki).
    pub max_sequence_length: usize,
    /// How to handle duplicate keys in a mapping (default: last wins).
    pub duplicate_key_policy: DuplicateKeyPolicy,
    /// If true, only lowercase `true` and `false` are booleans.
    pub strict_booleans: bool,
    /// If true, YAML 1.1 booleans (`yes`, `no`, `on`, `off`) are accepted.
    pub legacy_booleans: bool,
    /// How the merge key (`<<`) is handled.
    pub merge_key_policy: MergeKeyPolicy,
    /// When true, every plain scalar is a string.
    pub no_schema: bool,
    /// When true, bare `0`-prefixed octal literals (`0644`) are accepted.
    pub legacy_octal_numbers: bool,
    /// When true, `!!binary` text deserializes into a `String` as written.
    pub ignore_binary_tag_for_string: bool,
    /// When true, YAML 1.1 sexagesimal numbers (`1:30:00`) are integers.
    pub legacy_sexagesimal: bool,
}

/// The default configuration.
pub open spec fn default_config() -> ParserConfig {
    ParserConfig {
        max_depth: 128,
        max_document_length: 67108864,
        max_alias_expansions: 1024,
        max_mapping_keys: 65536,
        max_sequence_length: 65536,
        duplicate_key_policy: DuplicateKeyPolicy::Last,
        strict_booleans: false,
        legacy_booleans: false,
        merge_key_policy: MergeKeyPolicy::Auto,
        no_schema: false,
        legacy_octal_numbers: false,
        ignore_binary_tag_for_string: false,
        legacy_sexagesimal: false,
    }
}

/// The strict configuration: tighter limits for untrusted input,
/// lowercase-only booleans, duplicate keys rejected.
pub open spec fn strict_config() -> ParserConfig {
    ParserConfig {
        max_depth: 64,
        max_document_length: 1048576,
        max_alias_expansions: 100,
        max_mapping_keys: 1024,
        max_sequence_length: 1024,
        duplicate_key_policy: DuplicateKeyPolicy::Error,
        strict_booleans: true,
        legacy_booleans: false,
        merge_key_policy: MergeKeyPolicy::Auto,
        no_schema: false,
        legacy_octal_numbers: false,
        ignore_binary_tag_for_string: false,
        legacy_sexagesimal: false,
    }
}

impl Default for ParserConfig {
    /// The default configuration.
    fn default() -> (c: Self)
        ensures
            c == default_config(),
    {
        ParserConfig {
            max_depth: 128,
            max_document_length: 1024 * 1024 * 64,
            max_alias_expansions: 1024,
            max_mapping_keys: 1024 * 64,
            max_sequence_length: 1024 * 64,
            duplicate_key_policy: DuplicateKeyPolicy::Last,
            strict_booleans: false,
            legacy_booleans: false,
            merge_key_policy: MergeKeyPolicy::Auto,
            no_schema: false,
            legacy_octal_numbers: false,
            ignore_binary_tag_for_string: false,
            legacy_sexagesimal: false,
        }
    }
}

impl ParserConfig {
    /// A configuration with default values.
    pub fn new() -> (c: Self)
        ensures
            c == default_config(),
    {
        Self::default()
    }

    /// The strict configuration (YAML 1.2 strict, tight limits).
    pub fn strict() -> (c: Self)
        ensures
            c == strict_config(),
    {
        ParserConfig {
            max_depth: 64,
            max_document_length: 1024 * 1024,
            max_alias_expansions: 100,
            max_mapping_keys: 1024,
            max_sequence_length: 1024,
            strict_booleans: true,
            legacy_booleans: false,
            duplicate_key_policy: DuplicateKeyPolicy::Error,
            merge_key_policy: MergeKeyPolicy::Auto,
            no_schema: false,
            legacy_octal_numbers: false,
            ignore_binary_tag_for_string: false,
            legacy_sexagesimal: false,
        }
    }

    /// Set the maximum recursion depth.
    pub fn max_depth(self, depth: usize) -> (c: Self)
        ensures
            c == (ParserConfig { max_depth: depth, ..self }),
    {
        ParserConfig { max_depth: depth, ..self }
    }

    /// Set the maximum document length.
    pub fn max_document_length(self, len: usize) -> (c: Self)
        ensures
            c == (ParserConfig { max_document_length: len, ..self }),
    {
        ParserConfig { max_document_length: len, ..self }
    }

    /// Set the maximum alias expansions.
    pub fn max_alias_expansions(self, expansions: usize) -> (c: Self)
        ensures
            c == (ParserConfig { max_alias_expansions: expansions, ..self }),
    {
        ParserConfig { max_alias_expansions: expansions, ..self }
    }

    /// Set the maximum number of mapping keys.
    pub fn max_mapping_keys(self, max: usize) -> (c: Self)
        ensures
            c == (ParserConfig { max_mapping_keys: max, ..self }),
    {
        ParserConfig { max_mapping_keys: max, ..self }
    }

    /// Set the maximum sequence length.
    pub fn max_sequence_length(self, max: usize) -> (c: Self)
        ensures
            c == (ParserConfig { max_sequence_length: max, ..self }),
    {
        ParserConfig { max_sequence_length: max, ..self }
    }

    /// Set the duplicate key policy.
    pub fn duplicate_key_policy(self, policy: DuplicateKeyPolicy) -> (c: Self)
        ensures
            c == (ParserConfig { duplicate_key_policy: policy, ..self }),
    {
        ParserConfig { duplicate_key_policy: policy, ..self }
    }

    /// Enable or disable strict booleans.
    pub fn strict_booleans(self, strict: bool) -> (c: Self)
        ensures
            c == (ParserConfig { strict_booleans: strict, ..self }),
    {
        ParserConfig { strict_booleans: strict, ..self }
    }

    /// Enable or disable legacy booleans.
    pub fn legacy_booleans(self, legacy: bool) -> (c: Self)
        ensures
            c == (ParserConfig { legacy_booleans: legacy, ..self }),
    {
        ParserConfig { legacy_booleans: legacy, ..self }
    }

    /// Set the policy for the merge key (`<<`).
    pub fn merge_key_policy(self, policy: MergeKeyPolicy) -> (c: Self)
        ensures
            c == (ParserConfig { merge_key_policy: policy, ..self }),
    {
        ParserConfig { merge_key_policy: policy, ..self }
    }

    /// Toggle schema-free plain-scalar resolution.
    pub fn no_schema(self, no_schema: bool) -> (c: Self)
        ensures
            c == (ParserConfig { no_schema, ..self }),
    {
        ParserConfig { no_schema, ..self }
    }

    /// Toggle YAML 1.1-style bare `0`-prefix octal parsing.
    pub fn legacy_octal_numbers(self, on: bool) -> (c: Self)
        ensures
            c == (ParserConfig { legacy_octal_numbers: on, ..self }),
    {
        ParserConfig { legacy_octal_numbers: on, ..self }
    }

    /// Toggle reading `!!binary` text into a `String` as written.
    pub fn ignore_binary_tag_for_string(self, on: bool) -> (c: Self)
        ensures
            c == (ParserConfig { ignore_binary_tag_for_string: on, ..self }),
    {
        ParserConfig { ignore_binary_tag_for_string: on, ..self }
    }

    /// Toggle YAML 1.1-style sexagesimal number parsing.
    pub fn legacy_sexagesimal(self, on: bool) -> (c: Self)
        ensures
            c == (ParserConfig { legacy_sexagesimal: on, ..self }),
    {
        ParserConfig { legacy_sexagesimal: on, ..self }
    }
}

/// Law: each setter changes exactly its own field, so setters of
/// different fields commute.
pub proof fn lemma_setters_commute(c: ParserConfig, depth: usize, strict: bool)
    ensures
        (ParserConfig { strict_booleans: strict, ..(ParserConfig { max_depth: depth, ..c }) }) == (
        ParserConfig { max_depth: depth, ..(ParserConfig { strict_booleans: strict, ..c }) }),
{
}

} // verus!
