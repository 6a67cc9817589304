//! Choice of the index over the centroids, read from a kind and a list of named parameters.

use vstd::prelude::*;

use crate::text::{ascii_lower, lowercase_chars, spells};

verus! {

/// Build-time and search-time parameters for a graph index over centroid rows.
#[derive(Debug, Clone, Copy, PartialEq, Eq, Structural)]
pub struct HnswBuildParams {
    /// Largest number of neighbors per vertex.
    pub m: u32,
    /// Candidate list size while the graph is built.
    pub ef_construction: u32,
    /// Candidate list size while the graph is searched.
    pub ef_search: u32,
}

/// Parameters of a graph index that nothing was said of.
pub open spec fn default_params() -> HnswBuildParams {
    HnswBuildParams { m: 32, ef_construction: 40, ef_search: 64 }
}

impl Default for HnswBuildParams {
    fn default() -> (r: Self)
        ensures
            r == default_params(),
            r.m == 32,
            r.ef_construction == 40,
            r.ef_search == 64,
    {
        HnswBuildParams { m: 32, ef_construction: 40, ef_search: 64 }
    }
}

/// Resolved configuration of the centroid index.
#[derive(Debug, Clone, Copy, PartialEq, Eq, Structural)]
pub enum CentroidIndexConfig {
    /// Score every centroid.
    Dense,
    /// Search a graph over the centroids.
    Hnsw { params: HnswBuildParams },
}

impl Default for CentroidIndexConfig {
    fn default() -> (r: Self)
        ensures
            r == CentroidIndexConfig::Dense,
    {
        CentroidIndexConfig::Dense
    }
}

/// Names of the parameters that a graph index accepts.
pub const HNSW_PARAM_KEYS: [&'static str; 6] = [
    "m",
    "ef_construction",
    "ef_search",
    "graph_degree",
    "intermediate_graph_degree",
    "itopk_size",
];

/// A parameter value as the user gave it.
#[derive(Debug, Clone)]
pub enum ParamValue {
    Int(i64),
    Str(String),
}

/// What is wrong with one parameter.
#[derive(Debug, Clone, Copy, PartialEq, Eq, Structural)]
pub enum ParamFault {
    /// The value is below zero.
    Negative { value: i64 },
    /// The value is above `u32::MAX`.
    TooLarge,
    /// The value is not an integer.
    NotInteger,
    /// The name belonged to a backend that no longer exists.
    Retired,
    /// No parameter has this name.
    Unknown,
}

/// Why a configuration is refused.
#[derive(Debug, Clone, Copy, PartialEq, Eq, Structural)]
pub enum ConfigError {
    /// The kind names no index.
    UnknownKind,
    /// The dense index takes no parameters, and `count` were given.
    DenseWithParams { count: usize },
    /// The parameter at position `at` is at fault.
    Param { at: usize, fault: ParamFault },
    /// `m` must be at least two.
    MTooSmall { m: u32 },
    /// `ef_construction` must be at least one.
    EfConstructionTooSmall { ef_construction: u32 },
    /// `ef_search` must be at least one.
    EfSearchTooSmall { ef_search: u32 },
}

/// The `u32` that a parameter value stands for.
pub open spec fn value_u32(v: ParamValue) -> Result<u32, ParamFault> {
    match v {
        ParamValue::Int(i) => if i < 0 {
            Err(ParamFault::Negative { value: i })
        } else if i > u32::MAX {
            Err(ParamFault::TooLarge)
        } else {
            Ok(i as u32)
        },
        ParamValue::Str(_) => Err(ParamFault::NotInteger),
    }
}

/// The kind is one of the names of the dense index, in any case.
pub open spec fn names_dense(kind: Seq<char>) -> bool {
    let k = ascii_lower(kind);
    k == "dense"@ || k == "brute"@ || k == "bruteforce"@ || k == "brute_force"@
}

/// The kind is one of the names of the graph index, in any case.
pub open spec fn names_graph(kind: Seq<char>) -> bool {
    let k = ascii_lower(kind);
    k == "hnsw"@ || k == "faiss_hnsw"@ || k == "cagra"@
}

/// The key names the number of neighbors, in any case.
pub open spec fn names_m(key: Seq<char>) -> bool {
    ascii_lower(key) == "m"@ || ascii_lower(key) == "graph_degree"@
}

/// The key names the list size of the build, in any case.
pub open spec fn names_ef_construction(key: Seq<char>) -> bool {
    ascii_lower(key) == "ef_construction"@ || ascii_lower(key) == "intermediate_graph_degree"@
}

/// The key names the list size of a search, in any case.
pub open spec fn names_ef_search(key: Seq<char>) -> bool {
    ascii_lower(key) == "ef_search"@ || ascii_lower(key) == "itopk_size"@
}

/// The key belonged to a backend that no longer exists, in any case.
pub open spec fn names_retired(key: Seq<char>) -> bool {
    ascii_lower(key) == "build_algo"@ || ascii_lower(key) == "search_width"@
}

/// `hp` with the parameter called `key` set to `v`.
pub open spec fn with_param(hp: HnswBuildParams, key: Seq<char>, v: ParamValue) -> Result<
    HnswBuildParams,
    ParamFault,
> {
    if names_m(key) {
        match value_u32(v) {
            Ok(x) => Ok(HnswBuildParams { m: x, ..hp }),
            Err(f) => Err(f),
        }
    } else if names_ef_construction(key) {
        match value_u32(v) {
            Ok(x) => Ok(HnswBuildParams { ef_construction: x, ..hp }),
            Err(f) => Err(f),
        }
    } else if names_ef_search(key) {
        match value_u32(v) {
            Ok(x) => Ok(HnswBuildParams { ef_search: x, ..hp }),
            Err(f) => Err(f),
        }
    } else if names_retired(key) {
        Err(ParamFault::Retired)
    } else {
        Err(ParamFault::Unknown)
    }
}

/// The defaults with the first `n` parameters applied in order, up to the first at fault.
pub open spec fn with_params(ps: Seq<(&str, ParamValue)>, n: nat) -> Result<
    HnswBuildParams,
    ConfigError,
>
    decreases n,
{
    if n == 0 {
        Ok(default_params())
    } else {
        match with_params(ps, (n - 1) as nat) {
            Ok(hp) => match with_param(hp, ps[n - 1].0@, ps[n - 1].1) {
                Ok(next) => Ok(next),
                Err(fault) => Err(ConfigError::Param { at: (n - 1) as usize, fault }),
            },
            Err(e) => Err(e),
        }
    }
}

/// The graph index with these parameters, if they are in range.
pub open spec fn checked_params(hp: HnswBuildParams) -> Result<CentroidIndexConfig, ConfigError> {
    if hp.m < 2 {
        Err(ConfigError::MTooSmall { m: hp.m })
    } else if hp.ef_construction < 1 {
        Err(ConfigError::EfConstructionTooSmall { ef_construction: hp.ef_construction })
    } else if hp.ef_search < 1 {
        Err(ConfigError::EfSearchTooSmall { ef_search: hp.ef_search })
    } else {
        Ok(CentroidIndexConfig::Hnsw { params: hp })
    }
}

/// The configuration that a kind and its parameters stand for. No kind at all is the dense index.
pub open spec fn config_of(kind: Seq<char>, params: Seq<(&str, ParamValue)>) -> Result<
    CentroidIndexConfig,
    ConfigError,
> {
    if names_dense(kind) {
        if params.len() > 0 {
            Err(ConfigError::DenseWithParams { count: params.len() as usize })
        } else {
            Ok(CentroidIndexConfig::Dense)
        }
    } else if names_graph(kind) {
        match with_params(params, params.len()) {
            Ok(hp) => checked_params(hp),
            Err(e) => Err(e),
        }
    } else {
        Err(ConfigError::UnknownKind)
    }
}

impl ParamValue {
    /// The value as a `u32`.
    pub fn as_u32(&self) -> (r: Result<u32, ParamFault>)
        ensures
            r == value_u32(*self),
            match *self {
                ParamValue::Int(i) => {
                    &&& 0 <= i <= u32::MAX ==> r is Ok && r->Ok_0 == i
                    &&& i < 0 ==> r == Err::<u32, ParamFault>(ParamFault::Negative { value: i })
                    &&& i > u32::MAX ==> r == Err::<u32, ParamFault>(ParamFault::TooLarge)
                },
                ParamValue::Str(_) => r == Err::<u32, ParamFault>(ParamFault::NotInteger),
            },
    {
        match self {
            ParamValue::Int(v) => {
                if *v < 0 {
                    Err(ParamFault::Negative { value: *v })
                } else if *v > u32::MAX as i64 {
                    Err(ParamFault::TooLarge)
                } else {
                    Ok(*v as u32)
                }
            },
            ParamValue::Str(_) => Err(ParamFault::NotInteger),
        }
    }
}

fn set_param(hp: HnswBuildParams, key: &str, value: &ParamValue) -> (r: Result<
    HnswBuildParams,
    ParamFault,
>)
    ensures
        r == with_param(hp, key@, *value),
{
    let k = lowercase_chars(key);
    if spells(&k, "m") || spells(&k, "graph_degree") {
        match value.as_u32() {
            Ok(x) => Ok(HnswBuildParams { m: x, ..hp }),
            Err(f) => Err(f),
        }
    } else if spells(&k, "ef_construction") || spells(&k, "intermediate_graph_degree") {
        match value.as_u32() {
            Ok(x) => Ok(HnswBuildParams { ef_construction: x, ..hp }),
            Err(f) => Err(f),
        }
    } else if spells(&k, "ef_search") || spells(&k, "itopk_size") {
        match value.as_u32() {
            Ok(x) => Ok(HnswBuildParams { ef_search: x, ..hp }),
            Err(f) => Err(f),
        }
    } else if spells(&k, "build_algo") || spells(&k, "search_width") {
        Err(ParamFault::Retired)
    } else {
        Err(ParamFault::Unknown)
    }
}

proof fn lemma_first_fault(ps: Seq<(&str, ParamValue)>, k: nat, n: nat)
    requires
        k <= n,
        with_params(ps, k) is Err,
    ensures
        with_params(ps, n) == with_params(ps, k),
    decreases n,
{
    if k < n {
        lemma_first_fault(ps, k, (n - 1) as nat);
    }
}

impl CentroidIndexConfig {
    /// Resolves a kind and its parameters.
    ///
    /// The kind and the parameter names are read without regard to ASCII case. Without a kind the
    /// index is dense. Parameters belong to the graph index only; the dense index refuses any.
    pub fn parse(kind: Option<&str>, params: Option<Vec<(&str, ParamValue)>>) -> (r: Result<
        Self,
        ConfigError,
    >)
        ensures
            r == config_of(
                match kind {
                    Some(k) => k@,
                    None => "dense"@,
                },
                match params {
                    Some(ps) => ps@,
                    None => Seq::empty(),
                },
            ),
            kind is None && (params matches Some(ps) ==> ps@.len() == 0) ==> r == Ok::<
                Self,
                ConfigError,
            >(CentroidIndexConfig::Dense),
            kind is None ==> (params matches Some(ps) ==> ps@.len() > 0 ==> r == Err::<
                Self,
                ConfigError,
            >(ConfigError::DenseWithParams { count: ps@.len() as usize })),
            kind matches Some(k) ==> {
                let name = ascii_lower(k@);
                let dense = name == "dense"@ || name == "brute"@ || name == "bruteforce"@ || name
                    == "brute_force"@;
                let graph = name == "hnsw"@ || name == "faiss_hnsw"@ || name == "cagra"@;
                &&& !dense && !graph <==> r == Err::<Self, ConfigError>(ConfigError::UnknownKind)
                &&& dense <==> r == Ok::<Self, ConfigError>(CentroidIndexConfig::Dense) || (r is Err
                    && r->Err_0 is DenseWithParams)
                &&& dense ==> (r is Ok <==> params is None || params->0@.len() == 0)
                &&& r matches Err(ConfigError::DenseWithParams { count }) ==> params is Some
                    && count == params->0@.len()
                &&& graph && params is None ==> r == Ok::<Self, ConfigError>(
                    CentroidIndexConfig::Hnsw {
                        params: HnswBuildParams { m: 32, ef_construction: 40, ef_search: 64 },
                    },
                )
                &&& r matches Ok(CentroidIndexConfig::Hnsw { params: hp }) ==> hp.m >= 2
                    && hp.ef_construction >= 1 && hp.ef_search >= 1
            },
    {
        proof {
            lemma_kinds_differ();
            reveal_strlit("dense");
            assert(ascii_lower("dense"@) =~= "dense"@);
        }
        let name: &str = match kind {
            Some(k) => k,
            None => "dense",
        };
        let ps: Vec<(&str, ParamValue)> = match params {
            Some(ps) => ps,
            None => Vec::new(),
        };
        let k = lowercase_chars(name);
        if spells(&k, "dense") || spells(&k, "brute") || spells(&k, "bruteforce") || spells(
            &k,
            "brute_force",
        ) {
            if ps.len() > 0 {
                return Err(ConfigError::DenseWithParams { count: ps.len() });
            }
            return Ok(CentroidIndexConfig::Dense);
        }
        if !(spells(&k, "hnsw") || spells(&k, "faiss_hnsw") || spells(&k, "cagra")) {
            return Err(ConfigError::UnknownKind);
        }
        let mut hp = HnswBuildParams::default();
        let mut i: usize = 0;
        #[verifier::loop_isolation(false)]
        while i < ps.len()
            invariant
                i <= ps@.len(),
                with_params(ps@, i as nat) == Ok::<HnswBuildParams, ConfigError>(hp),
            decreases ps@.len() - i,
        {
            match set_param(hp, ps[i].0, &ps[i].1) {
                Ok(next) => {
                    hp = next;
                },
                Err(fault) => {
                    proof {
                        lemma_first_fault(ps@, (i + 1) as nat, ps@.len());
                    }
                    return Err(ConfigError::Param { at: i, fault });
                },
            }
            i += 1;
        }
        if hp.m < 2 {
            return Err(ConfigError::MTooSmall { m: hp.m });
        }
        if hp.ef_construction < 1 {
            return Err(
                ConfigError::EfConstructionTooSmall { ef_construction: hp.ef_construction },
            );
        }
        if hp.ef_search < 1 {
            return Err(ConfigError::EfSearchTooSmall { ef_search: hp.ef_search });
        }
        Ok(CentroidIndexConfig::Hnsw { params: hp })
    }
}

/// The kind is read without regard to ASCII case.
pub proof fn kind_ignores_case(a: Seq<char>, b: Seq<char>, params: Seq<(&str, ParamValue)>)
    requires
        ascii_lower(a) == ascii_lower(b),
    ensures
        config_of(a, params) == config_of(b, params),
{
}

/// Parameter names are read without regard to ASCII case: two lists that differ in the case of
/// their names alone give the same configuration.
pub proof fn keys_ignore_case(
    kind: Seq<char>,
    ps: Seq<(&str, ParamValue)>,
    qs: Seq<(&str, ParamValue)>,
)
    requires
        ps.len() == qs.len(),
        forall|i: int|
            0 <= i < ps.len() ==> ascii_lower(#[trigger] ps[i].0@) == ascii_lower(qs[i].0@)
                && ps[i].1 == qs[i].1,
    ensures
        config_of(kind, ps) == config_of(kind, qs),
{
    lemma_keys_ignore_case(ps, qs, ps.len());
}

proof fn lemma_keys_ignore_case(
    ps: Seq<(&str, ParamValue)>,
    qs: Seq<(&str, ParamValue)>,
    n: nat,
)
    requires
        n <= ps.len(),
        ps.len() == qs.len(),
        forall|i: int|
            0 <= i < ps.len() ==> ascii_lower(#[trigger] ps[i].0@) == ascii_lower(qs[i].0@)
                && ps[i].1 == qs[i].1,
    ensures
        with_params(ps, n) == with_params(qs, n),
    decreases n,
{
    if n > 0 {
        lemma_keys_ignore_case(ps, qs, (n - 1) as nat);
        assert(ascii_lower(ps[n - 1].0@) == ascii_lower(qs[n - 1].0@));
    }
}

/// A graph configuration that is accepted has `m >= 2`, `ef_construction >= 1` and
/// `ef_search >= 1`, and every parameter name in it is a known one.
pub proof fn accepted_graph_is_in_range(kind: Seq<char>, ps: Seq<(&str, ParamValue)>)
    requires
        config_of(kind, ps) is Ok,
    ensures
        config_of(kind, ps) matches Ok(CentroidIndexConfig::Hnsw { params }) ==> {
            &&& params.m >= 2
            &&& params.ef_construction >= 1
            &&& params.ef_search >= 1
            &&& forall|i: int|
                0 <= i < ps.len() ==> names_m(#[trigger] ps[i].0@) || names_ef_construction(
                    ps[i].0@,
                ) || names_ef_search(ps[i].0@)
        },
        config_of(kind, ps) matches Ok(CentroidIndexConfig::Dense) ==> ps.len() == 0,
{
    if names_graph(kind) && !names_dense(kind) {
        lemma_known_names(ps, ps.len());
    }
}

proof fn lemma_known_names(ps: Seq<(&str, ParamValue)>, n: nat)
    requires
        n <= ps.len(),
        with_params(ps, n) is Ok,
    ensures
        forall|i: int|
            0 <= i < n ==> names_m(#[trigger] ps[i].0@) || names_ef_construction(ps[i].0@)
                || names_ef_search(ps[i].0@),
    decreases n,
{
    if n > 0 {
        lemma_known_names(ps, (n - 1) as nat);
    }
}

/// Both keys name the same parameter.
pub open spec fn same_param(a: Seq<char>, b: Seq<char>) -> bool {
    ||| names_m(a) && names_m(b)
    ||| names_ef_construction(a) && names_ef_construction(b)
    ||| names_ef_search(a) && names_ef_search(b)
}

/// The value that `hp` holds for the parameter called `key`.
pub open spec fn param_called(hp: HnswBuildParams, key: Seq<char>) -> u32 {
    if names_m(key) {
        hp.m
    } else if names_ef_construction(key) {
        hp.ef_construction
    } else {
        hp.ef_search
    }
}

/// Of several values given for one parameter, under any of its names, the last one counts.
pub proof fn last_value_wins(ps: Seq<(&str, ParamValue)>, n: nat, last: int)
    requires
        n <= ps.len(),
        with_params(ps, n) is Ok,
        0 <= last < n,
        forall|i: int| last < i < n ==> !same_param(ps[last].0@, #[trigger] ps[i].0@),
    ensures
        value_u32(ps[last].1) == Ok::<u32, ParamFault>(
            param_called(with_params(ps, n)->Ok_0, ps[last].0@),
        ),
    decreases n,
{
    if last < n - 1 {
        last_value_wins(ps, (n - 1) as nat, last);
        lemma_known_names(ps, n);
        lemma_names_distinct();
        assert(!same_param(ps[last].0@, ps[n - 1].0@));
        assert(names_m(ps[last].0@) || names_ef_construction(ps[last].0@) || names_ef_search(
            ps[last].0@,
        ));
    }
}

proof fn lemma_names_distinct()
    ensures
        forall|k: Seq<char>|
            #![trigger names_m(k)]
            #![trigger names_ef_construction(k)]
            #![trigger names_ef_search(k)]
            !(names_m(k) && names_ef_construction(k)) && !(names_m(k) && names_ef_search(k)) && !(
            names_ef_construction(k) && names_ef_search(k)),
{
    reveal_strlit("m");
    reveal_strlit("graph_degree");
    reveal_strlit("ef_construction");
    reveal_strlit("intermediate_graph_degree");
    reveal_strlit("ef_search");
    reveal_strlit("itopk_size");
    assert("m"@.len() == 1);
    assert("graph_degree"@.len() == 12);
    assert("ef_construction"@.len() == 15);
    assert("intermediate_graph_degree"@.len() == 25);
    assert("ef_search"@.len() == 9);
    assert("itopk_size"@.len() == 10);
}

proof fn lemma_kinds_differ()
    ensures
        forall|k: Seq<char>|
            #![trigger names_dense(k)]
            #![trigger names_graph(k)]
            !(names_dense(k) && names_graph(k)),
{
    reveal_strlit("dense");
    reveal_strlit("brute");
    reveal_strlit("bruteforce");
    reveal_strlit("brute_force");
    reveal_strlit("hnsw");
    reveal_strlit("faiss_hnsw");
    reveal_strlit("cagra");
    assert("dense"@[0] == 'd' && "brute"@[0] == 'b' && "bruteforce"@[0] == 'b');
    assert("brute_force"@[0] == 'b' && "hnsw"@[0] == 'h' && "faiss_hnsw"@[0] == 'f');
    assert("cagra"@[0] == 'c');
}

/// A parameter sets the field that its name stands for and no other, to the value given. A value
/// that is no number from zero to the largest of 32 bits is refused, and so is a name that stands
/// for none.
pub proof fn a_parameter_sets_its_field(hp: HnswBuildParams, key: Seq<char>, v: ParamValue)
    ensures
        ({
            let name = ascii_lower(key);
            let r = with_param(hp, key, v);
            let m = name == "m"@ || name == "graph_degree"@;
            let build = name == "ef_construction"@ || name == "intermediate_graph_degree"@;
            let search = name == "ef_search"@ || name == "itopk_size"@;
            &&& r matches Ok(next) ==> {
                &&& m || build || search
                &&& v is Int
                &&& m ==> next.m == v->Int_0
                &&& !m ==> next.m == hp.m
                &&& build ==> next.ef_construction == v->Int_0
                &&& !build ==> next.ef_construction == hp.ef_construction
                &&& search ==> next.ef_search == v->Int_0
                &&& !search ==> next.ef_search == hp.ef_search
            }
            &&& (m || build || search) && v is Int && 0 <= v->Int_0 <= 0xffff_ffff ==> r is Ok
            &&& (m || build || search) && v is Int && v->Int_0 < 0 ==> r == Err::<
                HnswBuildParams,
                ParamFault,
            >(ParamFault::Negative { value: v->Int_0 })
            &&& (m || build || search) && v is Int && v->Int_0 > 0xffff_ffff ==> r == Err::<
                HnswBuildParams,
                ParamFault,
            >(ParamFault::TooLarge)
            &&& (m || build || search) && v is Str ==> r == Err::<HnswBuildParams, ParamFault>(
                ParamFault::NotInteger,
            )
            &&& name == "build_algo"@ || name == "search_width"@ ==> r == Err::<
                HnswBuildParams,
                ParamFault,
            >(ParamFault::Retired)
            &&& !m && !build && !search && name != "build_algo"@ && name != "search_width"@ ==> r
                == Err::<HnswBuildParams, ParamFault>(ParamFault::Unknown)
        }),
{
    lemma_names_distinct();
    assert(names_m(key) || !names_m(key));
    reveal_strlit("m");
    reveal_strlit("graph_degree");
    reveal_strlit("ef_construction");
    reveal_strlit("intermediate_graph_degree");
    reveal_strlit("ef_search");
    reveal_strlit("itopk_size");
    reveal_strlit("build_algo");
    reveal_strlit("search_width");
    assert("m"@.len() == 1);
    assert("build_algo"@[0] == 'b' && "search_width"@[0] == 's');
    assert("graph_degree"@[0] == 'g' && "itopk_size"@[0] == 'i');
    assert("ef_construction"@[0] == 'e' && "intermediate_graph_degree"@[0] == 'i');
    assert("ef_search"@[0] == 'e' && "m"@[0] == 'm');
}

/// Parameters are applied from the first to the last, starting from 32 neighbors and lists of 40 and
/// 64; the first that is at fault ends the reading, and its place is reported.
pub proof fn parameters_are_applied_in_order(ps: Seq<(&str, ParamValue)>, n: nat)
    requires
        n <= ps.len() <= usize::MAX,
    ensures
        with_params(ps, 0) == Ok::<HnswBuildParams, ConfigError>(
            HnswBuildParams { m: 32, ef_construction: 40, ef_search: 64 },
        ),
        with_params(ps, n) matches Ok(hp) ==> n < ps.len() ==> match with_param(
            hp,
            ps[n as int].0@,
            ps[n as int].1,
        ) {
            Ok(next) => with_params(ps, n + 1) == Ok::<HnswBuildParams, ConfigError>(next),
            Err(fault) => with_params(ps, n + 1) == Err::<HnswBuildParams, ConfigError>(
                ConfigError::Param { at: n as usize, fault },
            ),
        },
        with_params(ps, n) is Err ==> {
            &&& with_params(ps, n)->Err_0 is Param
            &&& with_params(ps, n)->Err_0->at < n
            &&& with_params(ps, with_params(ps, n)->Err_0->at as nat) is Ok
            &&& with_params(ps, ps.len()) == with_params(ps, n)
        },
    decreases n,
{
    if n > 0 {
        parameters_are_applied_in_order(ps, (n - 1) as nat);
    }
    if with_params(ps, n) is Err {
        lemma_first_fault(ps, n, ps.len());
    }
}

/// A parameter that is never named keeps its usual value.
pub proof fn unnamed_parameters_keep_their_values(ps: Seq<(&str, ParamValue)>, n: nat)
    requires
        n <= ps.len(),
        with_params(ps, n) is Ok,
    ensures
        (forall|i: int|
            0 <= i < n ==> ascii_lower(#[trigger] ps[i].0@) != "m"@ && ascii_lower(ps[i].0@)
                != "graph_degree"@) ==> with_params(ps, n)->Ok_0.m == 32,
        (forall|i: int|
            0 <= i < n ==> ascii_lower(#[trigger] ps[i].0@) != "ef_construction"@ && ascii_lower(
                ps[i].0@,
            ) != "intermediate_graph_degree"@) ==> with_params(ps, n)->Ok_0.ef_construction == 40,
        (forall|i: int|
            0 <= i < n ==> ascii_lower(#[trigger] ps[i].0@) != "ef_search"@ && ascii_lower(
                ps[i].0@,
            ) != "itopk_size"@) ==> with_params(ps, n)->Ok_0.ef_search == 64,
    decreases n,
{
    if n > 0 {
        unnamed_parameters_keep_their_values(ps, (n - 1) as nat);
        assert(ps[n - 1].0@ == ps[n - 1].0@);
    }
}

/// A graph index is accepted exactly when its parameters can be read and are in range, and is built
/// with these parameters. The first that is out of range is reported with its value.
pub proof fn graphs_in_range_are_accepted(kind: Seq<char>, ps: Seq<(&str, ParamValue)>)
    requires
        ascii_lower(kind) == "hnsw"@ || ascii_lower(kind) == "faiss_hnsw"@ || ascii_lower(kind)
            == "cagra"@,
    ensures
        with_params(ps, ps.len()) matches Err(e) ==> config_of(kind, ps) == Err::<
            CentroidIndexConfig,
            ConfigError,
        >(e),
        with_params(ps, ps.len()) matches Ok(hp) ==> {
            let r = config_of(kind, ps);
            &&& r is Ok <==> hp.m >= 2 && hp.ef_construction >= 1 && hp.ef_search >= 1
            &&& r matches Ok(c) ==> c == (CentroidIndexConfig::Hnsw { params: hp })
            &&& hp.m < 2 ==> r == Err::<CentroidIndexConfig, ConfigError>(
                ConfigError::MTooSmall { m: hp.m },
            )
            &&& hp.m >= 2 && hp.ef_construction == 0 ==> r == Err::<
                CentroidIndexConfig,
                ConfigError,
            >(ConfigError::EfConstructionTooSmall { ef_construction: 0 })
            &&& hp.m >= 2 && hp.ef_construction > 0 && hp.ef_search == 0 ==> r == Err::<
                CentroidIndexConfig,
                ConfigError,
            >(ConfigError::EfSearchTooSmall { ef_search: 0 })
        },
{
    lemma_kinds_differ();
    assert(names_graph(kind));
}

/// The listed names are those that stand for a parameter, two for each.
pub proof fn listed_names_stand_for_parameters()
    ensures
        HNSW_PARAM_KEYS@.len() == 6,
        HNSW_PARAM_KEYS@[0]@ == "m"@,
        HNSW_PARAM_KEYS@[1]@ == "ef_construction"@,
        HNSW_PARAM_KEYS@[2]@ == "ef_search"@,
        HNSW_PARAM_KEYS@[3]@ == "graph_degree"@,
        HNSW_PARAM_KEYS@[4]@ == "intermediate_graph_degree"@,
        HNSW_PARAM_KEYS@[5]@ == "itopk_size"@,
{
}

} // verus!
