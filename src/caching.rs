//! Which remote chains and endpoints have their storage cached.

use vstd::prelude::*;

verus! {

#[verifier::external_type_specification]
#[verifier::external_body]
pub struct ExRegex(regex::Regex);

#[verifier::external_type_specification]
#[verifier::external_body]
pub struct ExRegexError(regex::Error);

/// The pattern is a regular expression that compiles.
pub uninterp spec fn regex_compiles(pattern: Seq<char>) -> bool;

/// Relies on `regex::Regex::new`: compiles the pattern, or says why it cannot;
/// which of the two depends on the pattern alone.
#[verifier::external_body]
fn compile_regex(pattern: &str) -> (r: Result<regex::Regex, regex::Error>)
    ensures
        r is Ok == regex_compiles(pattern@),
{
    regex::Regex::new(pattern)
}

/// A chain: one known by name, with its id, or any chain id.
#[derive(Debug)]
pub enum ChainEntry {
    Named { name: String, id: u64 },
    Id(u64),
}

impl ChainEntry {
    pub open spec fn spec_id(&self) -> u64 {
        match *self {
            ChainEntry::Named { id, .. } => id,
            ChainEntry::Id(id) => id,
        }
    }

    pub fn id(&self) -> (r: u64)
        ensures
            r == self.spec_id(),
    {
        match self {
            ChainEntry::Named { id, .. } => *id,
            ChainEntry::Id(id) => *id,
        }
    }
}

/// What chains to cache.
#[derive(Debug)]
pub enum CachedChains {
    /// Cache all chains.
    All,
    /// Only cache these chains.
    Chains(Vec<ChainEntry>),
}

impl Default for CachedChains {
    fn default() -> (r: CachedChains)
        ensures
            r is All,
    {
        CachedChains::All
    }
}

/// A compiled endpoint pattern with the text it was compiled from. Only
/// `CachedEndpoints::parse` makes one, so the two always belong together.
#[derive(Debug)]
pub struct EndpointPattern {
    source: String,
    regex: regex::Regex,
}

impl EndpointPattern {
    /// The text the pattern was compiled from.
    pub closed spec fn pattern(&self) -> Seq<char> {
        self.source@
    }
}

/// The pattern matches somewhere in the text.
pub uninterp spec fn regex_matches(pattern: Seq<char>, text: Seq<char>) -> bool;

/// Relies on `regex::Regex::is_match`: whether the compiled pattern matches
/// anywhere in the text, which depends on the pattern and the text alone.
#[verifier::external_body]
fn pattern_is_match(p: &EndpointPattern, text: &str) -> (r: bool)
    ensures
        r == regex_matches(p.pattern(), text@),
{
    p.regex.is_match(text)
}

/// `needle` occurs in `hay`.
pub open spec fn contains_text(hay: Seq<char>, needle: Seq<char>) -> bool {
    exists|i: int| 0 <= i && i + needle.len() <= hay.len() && #[trigger] hay.subrange(i, i + needle.len()) == needle
}

/// Relies on `str::contains` with a text pattern: whether `needle` occurs in
/// `hay`.
#[verifier::external_body]
fn str_contains(hay: &str, needle: &str) -> (r: bool)
    ensures
        r == contains_text(hay@, needle@),
{
    hay.contains(needle)
}

/// What endpoints to cache.
#[derive(Debug)]
pub enum CachedEndpoints {
    /// Cache all endpoints.
    All,
    /// Only cache non-local endpoints.
    Remote,
    /// Only cache endpoints that match the pattern.
    Pattern(EndpointPattern),
}

impl Default for CachedEndpoints {
    fn default() -> (r: CachedEndpoints)
        ensures
            r is Remote,
    {
        CachedEndpoints::Remote
    }
}

impl PartialEq for CachedEndpoints {
    fn eq(&self, other: &CachedEndpoints) -> (r: bool) {
        match (self, other) {
            (CachedEndpoints::All, CachedEndpoints::All) => true,
            (CachedEndpoints::Remote, CachedEndpoints::Remote) => true,
            (CachedEndpoints::Pattern(a), CachedEndpoints::Pattern(b)) => a.source == b.source,
            _ => false,
        }
    }
}

impl vstd::std_specs::cmp::PartialEqSpecImpl for CachedEndpoints {
    open spec fn obeys_eq_spec() -> bool {
        true
    }

    open spec fn eq_spec(&self, other: &CachedEndpoints) -> bool {
        match (*self, *other) {
            (CachedEndpoints::All, CachedEndpoints::All) => true,
            (CachedEndpoints::Remote, CachedEndpoints::Remote) => true,
            (CachedEndpoints::Pattern(a), CachedEndpoints::Pattern(b)) => a.pattern() == b.pattern(),
            _ => false,
        }
    }
}

/// Why an endpoint setting could not be read.
#[derive(Debug)]
pub enum CachedEndpointsError {
    /// The pattern is not a regular expression.
    InvalidPattern(regex::Error),
}

impl CachedEndpoints {
    /// Reads a setting: `all`, `remote`, or a pattern of endpoints.
    pub fn parse(s: &str) -> (r: Result<CachedEndpoints, CachedEndpointsError>)
        ensures
            s@ == "all"@ ==> r matches Ok(CachedEndpoints::All),
            s@ == "remote"@ ==> r matches Ok(CachedEndpoints::Remote),
            s@ != "all"@ && s@ != "remote"@ ==> (regex_compiles(s@) <==> (r matches Ok(
                CachedEndpoints::Pattern(p),
            ) && p.pattern() == s@)) && (!regex_compiles(s@) <==> r is Err),
    {
        proof {
            reveal_strlit("all");
            reveal_strlit("remote");
            assert("all"@.len() == 3);
            assert("remote"@.len() == 6);
            assert("all"@ != "remote"@);
        }
        if crate::hex::text_eq(s, "all") {
            Ok(CachedEndpoints::All)
        } else if crate::hex::text_eq(s, "remote") {
            Ok(CachedEndpoints::Remote)
        } else {
            match compile_regex(s) {
                Ok(regex) => Ok(CachedEndpoints::Pattern(EndpointPattern { source: s.to_owned(), regex })),
                Err(e) => Err(CachedEndpointsError::InvalidPattern(e)),
            }
        }
    }

    /// The setting as text: `all`, `remote`, or the pattern.
    pub fn to_text(&self) -> (r: String)
        ensures
            self is All ==> r@ == "all"@,
            self is Remote ==> r@ == "remote"@,
            self matches CachedEndpoints::Pattern(p) ==> r@ == p.pattern(),
    {
        match self {
            CachedEndpoints::All => "all".to_owned(),
            CachedEndpoints::Remote => "remote".to_owned(),
            CachedEndpoints::Pattern(p) => p.source.clone(),
        }
    }
}

/// Settings for caching the storage of remote chains.
#[derive(Debug)]
pub struct StorageCachingConfig {
    /// Chains to cache.
    pub chains: CachedChains,
    /// Endpoints to cache.
    pub endpoints: CachedEndpoints,
}

impl Default for StorageCachingConfig {
    fn default() -> (r: StorageCachingConfig)
        ensures
            r.chains is All,
            r.endpoints is Remote,
    {
        StorageCachingConfig { chains: CachedChains::default(), endpoints: CachedEndpoints::default() }
    }
}


impl CachedChains {
    /// Whether chain `id` is cached: all are, or it is listed.
    pub open spec fn spec_is_match(&self, id: u64) -> bool {
        match *self {
            CachedChains::All => true,
            CachedChains::Chains(v) => exists|i: int| 0 <= i < v@.len() && (#[trigger] v@[i]).spec_id() == id,
        }
    }

    pub fn is_match(&self, id: u64) -> (r: bool)
        ensures
            r == self.spec_is_match(id),
    {
        match self {
            CachedChains::All => true,
            CachedChains::Chains(v) => {
                let mut i: usize = 0;
                while i < v.len()
                    invariant
                        i <= v@.len(),
                        self.spec_is_match(id) == exists|j: int|
                            0 <= j < v@.len() && (#[trigger] v@[j]).spec_id() == id,
                        forall|j: int| 0 <= j < i ==> (#[trigger] v@[j]).spec_id() != id,
                    decreases v@.len() - i,
                {
                    if v[i].id() == id {
                        assert((v@[i as int]).spec_id() == id);
                        assert(exists|j: int| 0 <= j < v@.len() && (#[trigger] v@[j]).spec_id() == id);

                        return true;
                    }
                    i = i + 1;
                }
                false
            },
        }
    }
}

impl CachedEndpoints {
    /// Whether `endpoint` is cached: all are; remote ones are those that name
    /// neither `localhost:` nor `127.0.0.1:`; or the pattern matches it.
    pub open spec fn spec_is_match(&self, endpoint: Seq<char>) -> bool {
        match *self {
            CachedEndpoints::All => true,
            CachedEndpoints::Remote => !contains_text(endpoint, "localhost:"@) && !contains_text(
                endpoint,
                "127.0.0.1:"@,
            ),
            CachedEndpoints::Pattern(p) => regex_matches(p.pattern(), endpoint),
        }
    }

    pub fn is_match(&self, endpoint: &str) -> (r: bool)
        ensures
            r == self.spec_is_match(endpoint@),
    {
        match self {
            CachedEndpoints::All => true,
            CachedEndpoints::Remote => !str_contains(endpoint, "localhost:") && !str_contains(
                endpoint,
                "127.0.0.1:",
            ),
            CachedEndpoints::Pattern(p) => pattern_is_match(p, endpoint),
        }
    }
}

impl StorageCachingConfig {
    /// Storage fetched from `endpoint` is cached.
    pub open spec fn endpoint_cached(&self, endpoint: Seq<char>) -> bool {
        self.endpoints.spec_is_match(endpoint)
    }

    /// Storage of chain `id` is cached.
    pub open spec fn chain_cached(&self, id: u64) -> bool {
        self.chains.spec_is_match(id)
    }

    pub fn enable_for_endpoint(&self, endpoint: &str) -> (r: bool)
        ensures
            r == self.endpoint_cached(endpoint@),
    {
        self.endpoints.is_match(endpoint)
    }

    pub fn enable_for_chain_id(&self, id: u64) -> (r: bool)
        ensures
            r == self.chain_cached(id),
    {
        self.chains.is_match(id)
    }
}

/// How to fork: the upstream endpoint, the pinned block, and where storage is
/// cached on disk, named by chain id and block.
#[derive(Debug)]
pub struct ForkConfig {
    pub url: String,
    pub pin_block: Option<u64>,
    /// The chain id and block that name the cache, if storage is cached.
    pub cache: Option<(u64, u64)>,
}

/// The fork to run against, if any.
///
/// There is a fork exactly when there is an upstream URL; it is pinned at
/// `fork_block`. Storage is cached only when caching is not switched off, a
/// block is pinned, the chain id is known, and both the endpoint and the chain
/// are enabled for caching; the cache is then named by chain id and block.
pub fn fork_config(
    fork_url: Option<String>,
    fork_block: Option<u64>,
    no_storage_cache: bool,
    config: &StorageCachingConfig,
    chain_id: Option<u64>,
) -> (r: Option<ForkConfig>)
    ensures
        fork_url is None <==> r is None,
        r matches Some(f) ==> f.url@ == fork_url->Some_0@ && f.pin_block == fork_block,
        r matches Some(f) ==> (f.cache is Some <==> (!no_storage_cache && fork_block is Some
            && config.endpoint_cached(f.url@) && chain_id is Some && config.chain_cached(
            chain_id->Some_0,
        ))),
        r matches Some(f) ==> (f.cache matches Some((c, b)) ==> c == chain_id->Some_0 && b
            == fork_block->Some_0),
{
    let url = match fork_url {
        Some(u) => u,
        None => return None,
    };
    let cache = if no_storage_cache {
        None
    } else {
        match (fork_block, chain_id) {
            (Some(block), Some(chain)) => {
                if config.enable_for_endpoint(url.as_str()) && config.enable_for_chain_id(chain) {
                    Some((chain, block))
                } else {
                    None
                }
            },
            _ => None,
        }
    };
    Some(ForkConfig { url, pin_block: fork_block, cache })
}

} // verus!
