use vstd::prelude::*;

use crate::encoding::Encoding;

verus! {

/// Name that a version descriptor gets when no descriptor matches.
pub const NOT_FOUND: &'static str = "not found";

/// Identification of the main configuration file.
pub struct ConfigMetadata {
    pub name: String,
}

/// User settings.
pub struct Settings {
    pub log_level: usize,
    pub log_file: String,
    pub enable_search: bool,
    pub enable_translation: bool,
    pub watchdog: bool,
}

/// The main configuration file.
pub struct MainConfig {
    pub metadata: ConfigMetadata,
    pub settings: Settings,
}

/// Identification of one host version: its name, its version label and the
/// fingerprint of its executable.
pub struct OffsetsMetadata {
    pub name: String,
    pub version: String,
    pub checksum: u32,
}

/// Offsets from the module base of the intercepted functions, where known.
pub struct OffsetsValues {
    pub string_copy_n: Option<usize>,
    pub string_append_n: Option<usize>,
    pub std_string_ctor: Option<usize>,
    pub addst: Option<usize>,
    pub addst_top: Option<usize>,
    pub addst_flag: Option<usize>,
    pub standardstringentry: Option<usize>,
    pub simplify_string: Option<usize>,
    pub upper_case_string: Option<usize>,
    pub lower_case_string: Option<usize>,
    pub capitalize_string_words: Option<usize>,
    pub capitalize_string_first_word: Option<usize>,
    pub utf_input: Option<usize>,
}

/// Module and symbol names of the intercepted functions, where known: the
/// first item names the module, the second the symbol.
pub struct SymbolsValues {
    pub addst: Option<Vec<String>>,
    pub addst_top: Option<Vec<String>>,
    pub addst_flag: Option<Vec<String>>,
    pub standardstringentry: Option<Vec<String>>,
    pub simplify_string: Option<Vec<String>>,
    pub upper_case_string: Option<Vec<String>>,
    pub lower_case_string: Option<Vec<String>>,
    pub capitalize_string_words: Option<Vec<String>>,
    pub capitalize_string_first_word: Option<Vec<String>>,
    pub std_string_append: Option<Vec<String>>,
    pub std_string_assign: Option<Vec<String>>,
    pub enabler: Option<Vec<String>>,
}

/// A version descriptor: the version it describes and its tables.
pub struct Offsets {
    pub metadata: OffsetsMetadata,
    pub offsets: Option<OffsetsValues>,
    pub symbols: Option<SymbolsValues>,
}

/// Everything the module reads at start-up.
pub struct Config {
    pub metadata: ConfigMetadata,
    pub settings: Settings,
    pub offset_metadata: OffsetsMetadata,
    pub offset: Option<OffsetsValues>,
    pub symbol: Option<SymbolsValues>,
    pub hook_version: String,
    pub encoding: Encoding,
}

/// Position of the first descriptor whose fingerprint is `checksum`.
pub open spec fn first_match(descriptors: Seq<Offsets>, checksum: u32) -> Option<int>
    decreases descriptors.len(),
{
    if descriptors.len() == 0 {
        None
    } else if descriptors[0].metadata.checksum == checksum {
        Some(0)
    } else {
        match first_match(descriptors.drop_first(), checksum) {
            Some(i) => Some(i + 1),
            None => None,
        }
    }
}

/// Finds the first descriptor whose fingerprint equals `checksum`.
pub fn resolve_version(descriptors: &Vec<Offsets>, checksum: u32) -> (r: Option<usize>)
    ensures
        r matches Some(i) ==> i < descriptors@.len(),
        match r {
            Some(i) => first_match(descriptors@, checksum) == Some(i as int),
            None => first_match(descriptors@, checksum).is_none(),
        },
{
    let mut i: usize = 0;
    while i < descriptors.len()
        invariant
            i <= descriptors@.len(),
            forall|j: int| 0 <= j < i ==> descriptors@[j].metadata.checksum != checksum,
        decreases descriptors@.len() - i,
    {
        if descriptors[i].metadata.checksum == checksum {
            proof {
                lemma_first_match(descriptors@, checksum, i as int);
            }
            return Some(i);
        }
        i = i + 1;
    }
    proof {
        lemma_no_match(descriptors@, checksum);
    }
    None
}

proof fn lemma_first_match(d: Seq<Offsets>, checksum: u32, i: int)
    requires
        0 <= i < d.len(),
        d[i].metadata.checksum == checksum,
        forall|j: int| 0 <= j < i ==> d[j].metadata.checksum != checksum,
    ensures
        first_match(d, checksum) == Some(i),
    decreases i,
{
    if i > 0 {
        lemma_first_match(d.drop_first(), checksum, i - 1);
    }
}

proof fn lemma_no_match(d: Seq<Offsets>, checksum: u32)
    requires
        forall|j: int| 0 <= j < d.len() ==> d[j].metadata.checksum != checksum,
    ensures
        first_match(d, checksum).is_none(),
    decreases d.len(),
{
    if d.len() > 0 {
        lemma_no_match(d.drop_first(), checksum);
    }
}

impl Config {
    /// Puts the configuration together: the first descriptor whose
    /// fingerprint equals `checksum` gives the version and its tables; where
    /// none does, the version is marked not found and has no tables, so
    /// nothing can be hooked.
    pub fn new(
        main_config: MainConfig,
        encoding: Encoding,
        checksum: u32,
        descriptors: Vec<Offsets>,
        hook_version: String,
    ) -> (r: Config)
        ensures
            r.encoding == encoding,
            r.hook_version == hook_version,
            r.metadata == main_config.metadata,
            r.settings == main_config.settings,
            match first_match(descriptors@, checksum) {
                Some(i) => 0 <= i < descriptors@.len() && r.offset_metadata == descriptors@[i].metadata && r.offset
                    == descriptors@[i].offsets && r.symbol == descriptors@[i].symbols,
                None => r.offset_metadata.name@ == NOT_FOUND@ && r.offset_metadata.version@
                    == NOT_FOUND@ && r.offset_metadata.checksum == checksum && r.offset.is_none()
                    && r.symbol.is_none(),
            },
    {
        let mut descriptors = descriptors;
        let (offset_metadata, offset, symbol) = match resolve_version(&descriptors, checksum) {
            Some(i) => {
                let o = descriptors.remove(i);
                (o.metadata, o.offsets, o.symbols)
            },
            None => (
                OffsetsMetadata {
                    name: NOT_FOUND.to_string(),
                    version: NOT_FOUND.to_string(),
                    checksum,
                },
                None,
                None,
            ),
        };
        Config {
            metadata: main_config.metadata,
            settings: main_config.settings,
            offset_metadata,
            offset,
            symbol,
            hook_version,
            encoding,
        }
    }
}

} // verus!
