//! The run configuration: plain data describing one source site and the
//! request layer, loaded once per run and immutable thereafter. Reading the
//! document that holds it is the surrounding process's business; this
//! module holds the shape and the lookup logic.

use vstd::prelude::*;

use crate::rules::ParserTransfromRule;

verus! {

/// One source site: its name, base URL, and the rules for its listing and
/// detail pages.
pub struct SourceConfig {
    pub name: String,
    pub root_url: String,
    pub menu: MenuRules,
    pub card: CardRules,
}

/// How listing ("menu") pages are found and read.
pub struct MenuRules {
    /// How many pages the site offers at most.
    pub page_limit: i32,
    /// The listing path when no filter is given.
    pub default_url: String,
    /// The page-number substitution template, in the configuration
    /// format's backreference syntax.
    pub page_url_sub: String,
    /// What to append for the first page instead of the template.
    pub first_page_url: String,
    /// The extraction rules for a menu page.
    pub rules: Vec<ParserTransfromRule>,
}

/// How detail ("card") pages are read.
pub struct CardRules {
    pub rules: Vec<ParserTransfromRule>,
}

/// The retry posture of the request layer.
pub struct HttpConfigRetries {
    pub max_retries: u32,
    pub backoff_factor: u32,
    /// Request timeout, in seconds.
    pub timeout: u32,
    pub status_forcelist: Vec<u16>,
}

/// The request layer's configuration as the run configuration carries it.
pub struct HttpConfig {
    pub retries: HttpConfigRetries,
    pub headers: Vec<(String, String)>,
}

/// The whole run configuration: request settings and the source list.
pub struct EtlConfig {
    pub http: HttpConfig,
    pub sources: Vec<SourceConfig>,
}

/// The index of the first source with the given name, if any.
pub fn extract_source_config(etl_config: &EtlConfig, source_name: &String) -> (r: Option<usize>)
    ensures
        match r {
            Some(i) => i < etl_config.sources@.len() && (etl_config.sources@[i as int].name)@
                == source_name@ && forall|k: int|
                0 <= k < i ==> (#[trigger] etl_config.sources@[k].name)@ != source_name@,
            None => forall|k: int|
                0 <= k < etl_config.sources@.len() ==> (#[trigger] etl_config.sources@[k].name)@
                    != source_name@,
        },
{
    let mut i: usize = 0;
    while i < etl_config.sources.len()
        invariant
            i <= etl_config.sources@.len(),
            forall|k: int| 0 <= k < i ==> (#[trigger] etl_config.sources@[k].name)@ != source_name@,
        decreases etl_config.sources@.len() - i,
    {
        if etl_config.sources[i].name == *source_name {
            return Some(i);
        }
        i = i + 1;
    }
    None
}

} // verus!
