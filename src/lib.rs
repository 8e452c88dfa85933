pub mod dmr;
pub mod interval_chunks;
pub mod mod_bam;
pub mod mod_base_code;
pub mod mod_pileup;
pub mod parsing_utils;
pub mod position_filter;
pub mod read_cache;
pub mod read_ids_to_base_mod_probs;
pub mod reads_sampler;
pub mod threshold_mod_caller;
pub mod thresholds;
pub mod util;
