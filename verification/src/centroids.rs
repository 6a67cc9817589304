//! Choosing the cells that a query probes.

use vstd::prelude::*;

use crate::chunks::ceil_div;
use crate::config::{CentroidIndexConfig, HnswBuildParams};
use crate::score::{ensure_tensor_all_finite, finite_by_exponent, Score};
use crate::text::{ascii_lower, lowercase_chars, parse_usize, spells, unsigned_value};

verus! {

/// Where a tensor lives.
#[derive(Clone, Copy, Debug, PartialEq, Eq, Structural)]
pub enum Device {
    Cpu,
    Cuda(usize),
    Mps,
    Vulkan,
}

/// A tensor of single-precision numbers.
pub struct TensorValue {
    pub device: Device,
    pub shape: Vec<i64>,
    pub values: Vec<Score>,
}

/// Why a centroid index is not built or searched.
#[derive(Clone, Copy, Debug, PartialEq, Eq, Structural)]
pub enum CentroidError {
    /// The graph backend is not part of this build.
    GraphUnavailable,
    /// Only the first graphics device is supported.
    WrongDevice(usize),
    /// The centroids are no matrix.
    BadCentroidShape,
    /// The number of centroids is out of range.
    CentroidCountOutOfRange,
    /// The dimension of the centroids is out of range.
    DimOutOfRange,
    /// There are no centroids, or they have no dimension.
    EmptyCentroids,
    /// Some value is not a number, or infinite.
    NotFinite,
    /// The centroids have too many entries.
    TooManyEntries,
    /// The queries are no matrix.
    BadQueryShape,
    /// The dimension of the queries is not that of the index.
    DimMismatch,
    /// There are not as many centroids as the index was built over.
    SizeMismatch,
    /// The number of queries is out of range.
    QueryCountOutOfRange,
    /// Too many queries once they are padded.
    TooManyQueries,
    /// The queries have too many entries once they are padded.
    QueryBufferTooLarge,
}

/// How the graph is searched.
#[derive(Clone, Copy, Debug, PartialEq, Eq, Structural)]
pub enum SearchAlgoMode {
    Auto,
    SingleCta,
    MultiCta,
    MultiCtaTuned,
}

/// The search mode that a setting names, whatever the case of its letters; the automatic one for
/// any other text, and where nothing is set.
pub open spec fn mode_of(text: Option<Seq<char>>) -> SearchAlgoMode {
    match text {
        None => SearchAlgoMode::Auto,
        Some(s) => {
            let name = ascii_lower(s);
            if name == "single"@ || name == "single_cta"@ {
                SearchAlgoMode::SingleCta
            } else if name == "multi"@ || name == "multi_cta"@ {
                SearchAlgoMode::MultiCta
            } else if name == "multi_tuned"@ {
                SearchAlgoMode::MultiCtaTuned
            } else {
                SearchAlgoMode::Auto
            }
        },
    }
}

/// The text in a setting.
pub open spec fn setting(text: Option<&str>) -> Option<Seq<char>> {
    match text {
        Some(s) => Some(s@),
        None => None,
    }
}

/// Reads a search mode.
pub fn search_algo(text: Option<&str>) -> (r: SearchAlgoMode)
    ensures
        r == mode_of(setting(text)),
        text is None ==> r == SearchAlgoMode::Auto,
        text matches Some(s) ==> r == mode_of(Some(s@)),
{
    match text {
        None => SearchAlgoMode::Auto,
        Some(s) => {
            let name = lowercase_chars(s);
            if spells(&name, "single") || spells(&name, "single_cta") {
                SearchAlgoMode::SingleCta
            } else if spells(&name, "multi") || spells(&name, "multi_cta") {
                SearchAlgoMode::MultiCta
            } else if spells(&name, "multi_tuned") {
                SearchAlgoMode::MultiCtaTuned
            } else {
                SearchAlgoMode::Auto
            }
        },
    }
}

/// Whether a setting names a search mode.
pub fn names_search_algo(text: &str) -> (r: bool)
    ensures
        r == (ascii_lower(text@).len() == 0 || ascii_lower(text@) == "auto"@ || mode_of(
            Some(text@),
        ) != SearchAlgoMode::Auto),
{
    let name = lowercase_chars(text);
    name.len() == 0 || spells(&name, "auto") || match search_algo(Some(text)) {
        SearchAlgoMode::Auto => false,
        _ => true,
    }
}

/// The number of rows that a search is padded to: a positive number in the setting, and 256
/// otherwise.
pub open spec fn pad_rows(text: Option<Seq<char>>) -> nat {
    match text {
        None => 256,
        Some(s) => match unsigned_value(s, usize::MAX as nat) {
            Some(n) => if n > 0 {
                n
            } else {
                256
            },
            None => 256,
        },
    }
}

/// Reads the number of rows that a search is padded to.
pub fn min_padded_rows(text: Option<&str>) -> (r: usize)
    ensures
        r == pad_rows(setting(text)),
        0 < r,
        text is None ==> r == 256,
        text matches Some(s) ==> r == pad_rows(Some(s@)),
{
    match text {
        None => 256,
        Some(s) => match parse_usize(s) {
            Some(n) => if n > 0 {
                n
            } else {
                256
            },
            None => 256,
        },
    }
}

/// How often a block of `n` queries is repeated so that there are at least `pad_to` of them.
pub open spec fn repeats_for(n: int, pad_to: int) -> int {
    if n < pad_to && ceil_div(pad_to, n) <= i64::MAX {
        ceil_div(pad_to, n)
    } else {
        1
    }
}

/// How often a block of `n` queries is repeated.
pub fn query_repeats(n: usize, pad_to: usize) -> (r: usize)
    requires
        0 < n,
    ensures
        r == repeats_for(n as int, pad_to as int),
        1 <= r,
        r > 1 ==> n * (r - 1) < pad_to <= n * r,
        r == 1 ==> pad_to <= n || pad_to > n * 0x7fff_ffff_ffff_ffff,
{
    proof {
        blocks_are_repeated_as_often_as_needed(n as int, pad_to as int);
    }
    if n >= pad_to {
        return 1;
    }
    let whole: usize = pad_to / n;
    proof {
        vstd::arithmetic::div_mod::lemma_fundamental_div_mod(pad_to as int, n as int);
        let m = pad_to as int % n as int;
        assert(1 <= whole <= pad_to && (m > 0 ==> whole < pad_to)) by (nonlinear_arith)
            requires
                pad_to == n * whole + m,
                0 <= m < n,
                n < pad_to,
        ;
    }
    let repeats: usize = if pad_to % n == 0 {
        whole
    } else {
        whole + 1
    };
    if repeats as u64 <= i64::MAX as u64 {
        repeats
    } else {
        1
    }
}

/// Repeating a block of `n` queries gives at least as many as asked for.
pub proof fn padding_reaches(n: int, pad_to: int)
    requires
        0 < n,
        0 <= pad_to <= i64::MAX,
    ensures
        n * repeats_for(n, pad_to) >= pad_to,
        n * repeats_for(n, pad_to) >= n,
{
    let c = repeats_for(n, pad_to);
    if n < pad_to {
        vstd::arithmetic::div_mod::lemma_fundamental_div_mod(pad_to, n);
        let q = pad_to / n;
        let m = pad_to % n;
        assert(ceil_div(pad_to, n) <= pad_to) by {
            if m > 0 {
                assert(q + 1 <= pad_to) by (nonlinear_arith)
                    requires
                        pad_to == n * q + m,
                        0 < m < n,
                        q >= 0,
                ;
            } else {
                assert(q <= pad_to) by (nonlinear_arith)
                    requires
                        pad_to == n * q,
                        0 < n,
                        0 <= pad_to,
                ;
            }
        }
        assert(q >= 1) by (nonlinear_arith)
            requires
                pad_to == n * q + m,
                0 <= m < n < pad_to,
        ;
        assert(n * c >= pad_to) by (nonlinear_arith)
            requires
                pad_to == n * q + m,
                0 <= m < n,
                c == q && m == 0 || c == q + 1,
        ;
    } else {
        assert(n * 1 == n);
    }
    assert(n * c >= n) by (nonlinear_arith)
        requires
            0 < n,
            c >= 1,
    ;
}

/// A block of values, again and again.
pub open spec fn repeated(block: Seq<Score>, times: int) -> Seq<Score> {
    Seq::new((block.len() * times) as nat, |i: int| block[i % (block.len() as int)])
}

/// A repeated block begins with the block, and a row is the same row one block further on.
pub proof fn padding_repeats_rows(block: Seq<Score>, times: int, i: int)
    requires
        0 <= i,
        i + block.len() < block.len() * times,
    ensures
        repeated(block, times)[i + block.len()] == repeated(block, times)[i],
        i < block.len() ==> repeated(block, times)[i] == block[i],
{
    let n = block.len() as int;
    assert(n > 0) by (nonlinear_arith)
        requires
            0 <= i,
            i + n < n * times,
            0 <= n,
    ;
    vstd::arithmetic::div_mod::lemma_mod_add_multiples_vanish(i, n);
    if i < n {
        vstd::arithmetic::div_mod::lemma_small_mod(i as nat, n as nat);
    }
}

/// Repeats a block of values.
pub fn repeat_block(block: &Vec<Score>, times: usize) -> (r: Vec<Score>)
    requires
        block@.len() * times <= usize::MAX,
    ensures
        r@ == repeated(block@, times as int),
{
    let mut out: Vec<Score> = Vec::new();
    let mut t: usize = 0;
    let n: usize = block.len();
    assert(n * 0 == 0);
    assert(out@ =~= repeated(block@, 0));
    while t < times
        invariant
            t <= times,
            n == block@.len(),
            out@ == repeated(block@, t as int),
        decreases times - t,
    {
        let mut i: usize = 0;
        let ghost base = out@;
        assert(0 <= n * t) by (nonlinear_arith);
        while i < n
            invariant
                i <= n,
                n == block@.len(),
                base == repeated(block@, t as int),
                base.len() == n * t,
                out@.len() == base.len() + i,
                forall|j: int| 0 <= j < out@.len() ==> #[trigger] out@[j] == block@[j % (n as int)],
            decreases n - i,
        {
            proof {
                assert(n * t == t * n) by (nonlinear_arith);
                vstd::arithmetic::div_mod::lemma_fundamental_div_mod_converse(
                    n * t + i,
                    n as int,
                    t as int,
                    i as int,
                );
            }
            out.push(block[i]);
            i += 1;
        }
        t += 1;
        assert(n * t == n * (t - 1) + n) by (nonlinear_arith)
            requires
                t >= 1,
        ;
        assert(out@ =~= repeated(block@, t as int));
    }
    out
}

/// The sizes of the tensor are not negative, and a matrix has a value for each of its entries.
pub open spec fn is_tensor(t: TensorValue) -> bool {
    &&& forall|i: int| 0 <= i < t.shape@.len() ==> 0 <= #[trigger] t.shape@[i]
    &&& t.shape@.len() == 2 ==> t.values@.len() == t.shape@[0] * t.shape@[1]
}

/// Every value of the tensor is a finite number.
pub open spec fn all_finite(t: TensorValue) -> bool {
    forall|i: int| 0 <= i < t.values@.len() ==> #[trigger] t.values@[i].is_finite()
}

/// The device is a graphics device other than the first.
pub open spec fn is_wrong_device(d: Device) -> bool {
    d matches Device::Cuda(i) && i != 0
}

/// A graph over centroid rows, and how it is searched.
#[derive(Clone, Copy, Debug, PartialEq, Eq, Structural)]
pub struct HnswCentroidState {
    /// Length of the list of candidates that a search keeps.
    pub itopk_size: usize,
    /// Dimension of the centroids.
    pub dim: usize,
    /// Number of centroids.
    pub n: usize,
    /// Neighbours of every vertex of the graph.
    pub graph_degree: usize,
    /// Neighbours of every vertex while the graph is built.
    pub intermediate_graph_degree: usize,
}

/// The graph that is built over centroids, or why none is.
pub open spec fn graph_of(t: TensorValue, params: HnswBuildParams) -> Result<
    HnswCentroidState,
    CentroidError,
> {
    if is_wrong_device(t.device) {
        Err(CentroidError::WrongDevice(t.device->Cuda_0))
    } else if t.shape@.len() != 2 {
        Err(CentroidError::BadCentroidShape)
    } else if t.shape@[0] < 0 || t.shape@[0] > usize::MAX {
        Err(CentroidError::CentroidCountOutOfRange)
    } else if t.shape@[1] < 0 || t.shape@[1] > usize::MAX {
        Err(CentroidError::DimOutOfRange)
    } else if t.shape@[0] == 0 || t.shape@[1] == 0 {
        Err(CentroidError::EmptyCentroids)
    } else if !all_finite(t) {
        Err(CentroidError::NotFinite)
    } else if t.shape@[0] * t.shape@[1] > usize::MAX {
        Err(CentroidError::TooManyEntries)
    } else {
        Ok(
            HnswCentroidState {
                itopk_size: if params.ef_search > 1 {
                    params.ef_search as usize
                } else {
                    1
                },
                dim: t.shape@[1] as usize,
                n: t.shape@[0] as usize,
                graph_degree: params.m as usize,
                intermediate_graph_degree: params.ef_construction as usize,
            },
        )
    }
}

/// A search of the graph for a block of queries.
pub struct TopkPlan {
    /// Cells per query.
    pub k: usize,
    /// Number of queries.
    pub rows: usize,
    /// Number of queries once the block is repeated.
    pub search_rows: usize,
    /// Length of the list of candidates that the search keeps.
    pub itopk_size: usize,
    /// How the graph is searched.
    pub algo: SearchAlgoMode,
    /// The queries, one row after another, and the block again and again.
    pub queries: Vec<Score>,
}

/// Cells per query: at most the number of centroids, and at least one.
pub open spec fn probes(k: int, n_centroids: int) -> int {
    let few = if k < n_centroids {
        k
    } else {
        n_centroids
    };
    if few > 1 {
        few
    } else {
        1
    }
}

impl HnswCentroidState {
    /// Settles how a graph is built over centroids.
    pub fn build_centroids(centroids: &TensorValue, params: &HnswBuildParams) -> (r: Result<
        HnswCentroidState,
        CentroidError,
    >)
        ensures
            r == graph_of(*centroids, *params),
    {
        if let Device::Cuda(i) = centroids.device {
            if i != 0 {
                return Err(CentroidError::WrongDevice(i));
            }
        }
        if centroids.shape.len() != 2 {
            return Err(CentroidError::BadCentroidShape);
        }
        let rows: i64 = centroids.shape[0];
        let cols: i64 = centroids.shape[1];
        if rows < 0 || rows as u64 > usize::MAX as u64 {
            return Err(CentroidError::CentroidCountOutOfRange);
        }
        if cols < 0 || cols as u64 > usize::MAX as u64 {
            return Err(CentroidError::DimOutOfRange);
        }
        let n: usize = rows as usize;
        let dim: usize = cols as usize;
        if n == 0 || dim == 0 {
            return Err(CentroidError::EmptyCentroids);
        }
        if ensure_tensor_all_finite(&centroids.values).is_err() {
            return Err(CentroidError::NotFinite);
        }
        if n.checked_mul(dim).is_none() {
            return Err(CentroidError::TooManyEntries);
        }
        let itopk_size: usize = if params.ef_search > 1 {
            params.ef_search as usize
        } else {
            1
        };
        Ok(
            HnswCentroidState {
                itopk_size,
                dim,
                n,
                graph_degree: params.m as usize,
                intermediate_graph_degree: params.ef_construction as usize,
            },
        )
    }

    /// Why these queries cannot be searched for, whatever they are padded to, if they cannot.
    pub open spec fn query_fault(self, n_centroids: i64, queries: TensorValue) -> Option<
        CentroidError,
    > {
        if is_wrong_device(queries.device) {
            Some(CentroidError::WrongDevice(queries.device->Cuda_0))
        } else if queries.shape@.len() != 2 {
            Some(CentroidError::BadQueryShape)
        } else if queries.shape@[1] > usize::MAX {
            Some(CentroidError::DimOutOfRange)
        } else if queries.shape@[1] != self.dim {
            Some(CentroidError::DimMismatch)
        } else if n_centroids != self.n {
            Some(CentroidError::SizeMismatch)
        } else if queries.shape@[0] > usize::MAX {
            Some(CentroidError::QueryCountOutOfRange)
        } else if !all_finite(queries) {
            Some(CentroidError::NotFinite)
        } else {
            None
        }
    }

    /// Why the graph is not searched for these queries, if it is not.
    pub open spec fn topk_fault(
        self,
        n_centroids: i64,
        queries: TensorValue,
        pad_to: int,
    ) -> Option<CentroidError> {
        let repeats = repeats_for(queries.shape@[0] as int, pad_to);
        if let Some(e) = self.query_fault(n_centroids, queries) {
            Some(e)
        } else if queries.shape@[0] * repeats > usize::MAX {
            Some(CentroidError::TooManyQueries)
        } else if queries.shape@[0] * repeats * queries.shape@[1] > usize::MAX {
            Some(CentroidError::QueryBufferTooLarge)
        } else {
            None
        }
    }

    /// Looks for what keeps these queries from being searched for.
    pub fn find_query_fault(&self, n_centroids: i64, queries: &TensorValue) -> (r: Option<
        CentroidError,
    >)
        requires
            is_tensor(*queries),
        ensures
            r == self.query_fault(n_centroids, *queries),
    {
        if let Device::Cuda(i) = queries.device {
            if i != 0 {
                return Some(CentroidError::WrongDevice(i));
            }
        }
        if queries.shape.len() != 2 {
            return Some(CentroidError::BadQueryShape);
        }
        let rows: i64 = queries.shape[0];
        let cols: i64 = queries.shape[1];
        assert(0 <= queries.shape@[0] && 0 <= queries.shape@[1]);
        if cols as u64 > usize::MAX as u64 {
            Some(CentroidError::DimOutOfRange)
        } else if cols as usize != self.dim {
            Some(CentroidError::DimMismatch)
        } else if n_centroids < 0 || n_centroids as u64 != self.n as u64 {
            Some(CentroidError::SizeMismatch)
        } else if rows as u64 > usize::MAX as u64 {
            Some(CentroidError::QueryCountOutOfRange)
        } else if ensure_tensor_all_finite(&queries.values).is_err() {
            Some(CentroidError::NotFinite)
        } else {
            None
        }
    }

    /// Settles a search for the `k` cells nearest to every query. `algo` and `pad_to` are the
    /// settings for the search mode and for the padding of small blocks.
    pub fn topk_centroids(
        &self,
        n_centroids: i64,
        queries: &TensorValue,
        k: i64,
        algo: Option<&str>,
        pad_to: Option<&str>,
    ) -> (r: Result<TopkPlan, CentroidError>)
        requires
            is_tensor(*queries),
            self.query_fault(n_centroids, *queries) is None ==> queries.shape@[0] > 0,
        ensures
            match self.topk_fault(n_centroids, *queries, pad_rows(setting(pad_to)) as int) {
                Some(e) => r == Err::<TopkPlan, CentroidError>(e),
                None => r matches Ok(p) && {
                    let rows = queries.shape@[0] as int;
                    let repeats = repeats_for(rows, pad_rows(setting(pad_to)) as int);
                    &&& p.k == probes(k as int, n_centroids as int)
                    &&& p.rows == rows
                    &&& p.search_rows == rows * repeats
                    &&& p.itopk_size == if p.k > self.itopk_size {
                        p.k
                    } else {
                        self.itopk_size
                    }
                    &&& p.algo == mode_of(setting(algo))
                    &&& p.queries@ == repeated(queries.values@, repeats)
                },
            },
    {
        if let Some(e) = self.find_query_fault(n_centroids, queries) {
            return Err(e);
        }
        assert(0 <= queries.shape@[0] && 0 <= queries.shape@[1]);
        let n: usize = queries.shape[0] as usize;
        let dim: usize = queries.shape[1] as usize;
        let few: i64 = if k < n_centroids {
            k
        } else {
            n_centroids
        };
        let probed: usize = if few > 1 {
            few as usize
        } else {
            1
        };
        let repeats: usize = query_repeats(n, min_padded_rows(pad_to));
        let search_rows: usize = match n.checked_mul(repeats) {
            Some(s) => s,
            None => {
                return Err(CentroidError::TooManyQueries);
            },
        };
        if search_rows.checked_mul(dim).is_none() {
            return Err(CentroidError::QueryBufferTooLarge);
        }
        assert(queries.values@.len() * repeats == search_rows * dim) by (nonlinear_arith)
            requires
                queries.values@.len() == n * dim,
                search_rows == n * repeats,
        ;
        let block = repeat_block(&queries.values, repeats);
        let itopk_size: usize = if probed > self.itopk_size {
            probed
        } else {
            self.itopk_size
        };
        Ok(
            TopkPlan {
                k: probed,
                rows: n,
                search_rows,
                itopk_size,
                algo: search_algo(algo),
                queries: block,
            },
        )
    }
}

impl TopkPlan {
    /// The cells nearest to every query, query by query. `neighbors` holds those of every row that
    /// was searched for, row by row; the rows that only padded the block are left out.
    pub fn neighbor_ids(&self, neighbors: &Vec<u32>) -> (r: Vec<i64>)
        requires
            self.rows <= self.search_rows,
            neighbors@.len() == self.search_rows * self.k,
        ensures
            r@.len() == self.rows * self.k,
            forall|i: int| 0 <= i < r@.len() ==> #[trigger] r@[i] == neighbors@[i],
    {
        assert(self.rows * self.k <= self.search_rows * self.k) by (nonlinear_arith)
            requires
                self.rows <= self.search_rows,
        ;
        let found: usize = neighbors.len();
        let count: usize = self.rows * self.k;
        let mut out: Vec<i64> = Vec::new();
        let mut i: usize = 0;
        while i < count
            invariant
                i <= count <= neighbors@.len(),
                out@.len() == i,
                forall|j: int| 0 <= j < i ==> #[trigger] out@[j] == neighbors@[j],
            decreases count - i,
        {
            out.push(neighbors[i] as i64);
            i += 1;
        }
        out
    }
}

/// The lookup of centroids during a search.
#[derive(Clone, Copy, Debug, PartialEq, Eq, Structural)]
pub enum CentroidIndex {
    /// Every query is compared with all centroids.
    Dense,
    /// Cells are chosen by searching a graph over the centroids.
    Hnsw { hnsw: HnswCentroidState },
}

/// How the cells nearest to every query are found.
pub enum TopkTask {
    /// By comparing every query with all centroids, and keeping `k` of them.
    Dense { k: i64 },
    /// By searching the graph.
    Graph(TopkPlan),
}

/// The index over centroids that a configuration asks for, or why there is none.
pub open spec fn index_for(
    config: CentroidIndexConfig,
    centroids: TensorValue,
    graph_available: bool,
) -> Result<CentroidIndex, CentroidError> {
    match config {
        CentroidIndexConfig::Dense => Ok(CentroidIndex::Dense),
        CentroidIndexConfig::Hnsw { params } => if !graph_available {
            Err(CentroidError::GraphUnavailable)
        } else {
            match graph_of(centroids, params) {
                Ok(hnsw) => Ok(CentroidIndex::Hnsw { hnsw }),
                Err(e) => Err(e),
            }
        },
    }
}

impl CentroidIndex {
    /// The index that compares every query with all centroids.
    pub fn dense() -> (r: Self)
        ensures
            r == CentroidIndex::Dense,
    {
        CentroidIndex::Dense
    }

    /// The index that a configuration asks for. `graph_available` says whether graphs can be built.
    pub fn build(config: CentroidIndexConfig, centroids: &TensorValue, graph_available: bool) -> (r:
        Result<Self, CentroidError>)
        ensures
            r == index_for(config, *centroids, graph_available),
    {
        match config {
            CentroidIndexConfig::Dense => Ok(Self::dense()),
            CentroidIndexConfig::Hnsw { params } => {
                if !graph_available {
                    return Err(CentroidError::GraphUnavailable);
                }
                match HnswCentroidState::build_centroids(centroids, &params) {
                    Ok(hnsw) => Ok(CentroidIndex::Hnsw { hnsw }),
                    Err(e) => Err(e),
                }
            },
        }
    }

    /// Settles how the `k` cells nearest to every query are found.
    pub fn topk(
        &self,
        n_centroids: i64,
        queries: &TensorValue,
        k: i64,
        algo: Option<&str>,
        pad_to: Option<&str>,
    ) -> (r: Result<TopkTask, CentroidError>)
        requires
            is_tensor(*queries),
            self matches CentroidIndex::Hnsw { hnsw } ==> hnsw.query_fault(n_centroids, *queries)
                is None ==> queries.shape@[0] > 0,
        ensures
            match *self {
                CentroidIndex::Dense => r matches Ok(TopkTask::Dense { k: kept }) && kept == k,
                CentroidIndex::Hnsw { hnsw } => {
                    let rows = queries.shape@[0] as int;
                    let repeats = repeats_for(rows, pad_rows(setting(pad_to)) as int);
                    match hnsw.topk_fault(
                        n_centroids,
                        *queries,
                        pad_rows(setting(pad_to)) as int,
                    ) {
                        Some(e) => r == Err::<TopkTask, CentroidError>(e),
                        None => r matches Ok(TopkTask::Graph(p)) && {
                            &&& p.k == probes(k as int, n_centroids as int)
                            &&& p.rows == rows
                            &&& p.search_rows == rows * repeats
                            &&& p.itopk_size == if p.k > hnsw.itopk_size {
                                p.k
                            } else {
                                hnsw.itopk_size
                            }
                            &&& p.algo == mode_of(setting(algo))
                            &&& p.queries@ == repeated(queries.values@, repeats)
                        },
                    }
                },
            },
    {
        match self {
            CentroidIndex::Dense => Ok(TopkTask::Dense { k }),
            CentroidIndex::Hnsw { hnsw } => match hnsw.topk_centroids(
                n_centroids,
                queries,
                k,
                algo,
                pad_to,
            ) {
                Ok(p) => Ok(TopkTask::Graph(p)),
                Err(e) => Err(e),
            },
        }
    }

    /// The cells that a choice among `candidate_ids` stands for, query by query. `local_ids` holds,
    /// for every rank, the place of the candidate that each of `rows` queries has at that rank.
    pub fn masked_topk(candidate_ids: &Vec<i64>, local_ids: &Vec<i64>, k: usize, rows: usize) -> (r:
        Vec<i64>)
        requires
            local_ids@.len() == k * rows,
            forall|i: int|
                0 <= i < local_ids@.len() ==> 0 <= #[trigger] local_ids@[i] < candidate_ids@.len(),
        ensures
            r@.len() == rows * k,
            forall|q: int, j: int|
                0 <= q < rows && 0 <= j < k ==> r@[#[trigger] (q * k + j)]
                    == candidate_ids@[local_ids@[j * rows + q] as int],
    {
        let mut out: Vec<i64> = Vec::new();
        let mut q: usize = 0;
        assert(0 * k == 0);
        while q < rows
            invariant
                q <= rows,
                local_ids@.len() == k * rows,
                forall|i: int|
                    0 <= i < local_ids@.len() ==> 0 <= #[trigger] local_ids@[i]
                        < candidate_ids@.len(),
                out@.len() == q * k,
                forall|p: int, j: int|
                    0 <= p < q && 0 <= j < k ==> out@[#[trigger] (p * k + j)]
                        == candidate_ids@[local_ids@[j * rows + p] as int],
            decreases rows - q,
        {
            let mut j: usize = 0;
            while j < k
                invariant
                    j <= k,
                    q < rows,
                    local_ids@.len() == k * rows,
                    forall|i: int|
                        0 <= i < local_ids@.len() ==> 0 <= #[trigger] local_ids@[i]
                            < candidate_ids@.len(),
                    out@.len() == q * k + j,
                    forall|p: int, i: int|
                        0 <= p < q && 0 <= i < k ==> out@[#[trigger] (p * k + i)]
                            == candidate_ids@[local_ids@[i * rows + p] as int],
                    forall|i: int|
                        0 <= i < j ==> out@[#[trigger] (q * k + i)]
                            == candidate_ids@[local_ids@[i * rows + q] as int],
                decreases k - j,
            {
                let found: usize = local_ids.len();
                assert(0 <= j * rows <= j * rows + q < found) by (nonlinear_arith)
                    requires
                        j < k,
                        q < rows,
                        found == k * rows,
                ;
                assert(0 <= local_ids@[j * rows + q] < candidate_ids@.len());
                let known: usize = candidate_ids.len();
                let place: i64 = local_ids[j * rows + q];
                assert forall|p: int, i: int| 0 <= p < q && 0 <= i < k implies 0
                    <= #[trigger] (p * k + i) < q * k by {
                    assert(0 <= p * k + i < q * k) by (nonlinear_arith)
                        requires
                            0 <= p < q,
                            0 <= i < k,
                    ;
                }
                out.push(candidate_ids[place as usize]);
                j += 1;
            }
            q += 1;
            assert(q * k == (q - 1) * k + k) by (nonlinear_arith)
                requires
                    q >= 1,
            ;
        }
        out
    }
}

/// Search modes go by their names, whatever the case of the letters; all other texts, and none,
/// stand for the automatic mode.
pub proof fn modes_go_by_their_names(text: Seq<char>)
    ensures
        mode_of(None) == SearchAlgoMode::Auto,
        mode_of(Some(text)) == SearchAlgoMode::SingleCta <==> ascii_lower(text) == "single"@
            || ascii_lower(text) == "single_cta"@,
        mode_of(Some(text)) == SearchAlgoMode::MultiCta <==> ascii_lower(text) == "multi"@
            || ascii_lower(text) == "multi_cta"@,
        mode_of(Some(text)) == SearchAlgoMode::MultiCtaTuned <==> ascii_lower(text)
            == "multi_tuned"@,
{
    reveal_strlit("single");
    reveal_strlit("single_cta");
    reveal_strlit("multi");
    reveal_strlit("multi_cta");
    reveal_strlit("multi_tuned");
    assert("single"@[0] == 's' && "single_cta"@[0] == 's');
    assert("multi"@[0] == 'm' && "multi_cta"@[0] == 'm' && "multi_tuned"@[0] == 'm');
    assert("multi"@.len() == 5 && "multi_cta"@.len() == 9 && "multi_tuned"@.len() == 11);
}

/// A search is padded to the rows that the setting asks for, if it asks for any, and otherwise to 256.
pub proof fn searches_are_padded_as_set(text: Seq<char>)
    ensures
        pad_rows(None) == 256,
        unsigned_value(text, usize::MAX as nat) matches Some(n) ==> n > 0 ==> pad_rows(Some(text))
            == n,
        unsigned_value(text, usize::MAX as nat) == Some(0nat) ==> pad_rows(Some(text)) == 256,
        unsigned_value(text, usize::MAX as nat) is None ==> pad_rows(Some(text)) == 256,
{
}

/// A block of queries is repeated no more often than it takes to reach the rows asked for. Where that
/// would be too often, it is not repeated.
pub proof fn blocks_are_repeated_as_often_as_needed(n: int, pad_to: int)
    requires
        0 < n,
        0 <= pad_to,
    ensures
        1 <= repeats_for(n, pad_to) <= 0x7fff_ffff_ffff_ffff,
        repeats_for(n, pad_to) > 1 ==> n * (repeats_for(n, pad_to) - 1) < pad_to <= n * repeats_for(
            n,
            pad_to,
        ),
        repeats_for(n, pad_to) == 1 ==> pad_to <= n || pad_to > n * 0x7fff_ffff_ffff_ffff,
{
    let c = ceil_div(pad_to, n);
    if n < pad_to {
        vstd::arithmetic::div_mod::lemma_fundamental_div_mod(pad_to, n);
        let q = pad_to / n;
        let m = pad_to % n;
        assert(q >= 1) by (nonlinear_arith)
            requires
                pad_to == n * q + m,
                0 <= m < n < pad_to,
        ;
        assert(n * (c - 1) < pad_to <= n * c) by (nonlinear_arith)
            requires
                pad_to == n * q + m,
                0 <= m < n,
                c == q && m == 0 || c == q + 1 && m > 0,
        ;
        if c == 1 {
            assert(n * 1 == n);
        }
        if c > 0x7fff_ffff_ffff_ffff {
            assert(n * (c - 1) >= n * 0x7fff_ffff_ffff_ffff) by (nonlinear_arith)
                requires
                    n > 0,
                    c - 1 >= 0x7fff_ffff_ffff_ffff,
            ;
        }
    }
}

/// A repeated block is the block, once for every time.
pub proof fn repeated_blocks_hold_the_block(block: Seq<Score>, times: int, t: int, i: int)
    requires
        0 <= t < times,
        0 <= i < block.len(),
    ensures
        repeated(block, times).len() == block.len() * times,
        0 <= t * block.len() + i < block.len() * times,
        repeated(block, times)[t * block.len() + i] == block[i],
{
    let n = block.len() as int;
    assert(0 <= t * n + i < n * times) by (nonlinear_arith)
        requires
            0 <= t < times,
            0 <= i < n,
    ;
    vstd::arithmetic::div_mod::lemma_fundamental_div_mod_converse(t * n + i, n, t, i);
}

/// As many cells are probed as are asked for, as long as there are so many; all of them, if there
/// are fewer; and always one.
pub proof fn cells_are_probed_as_asked(k: int, n_centroids: int)
    ensures
        probes(k, n_centroids) >= 1,
        1 <= k <= n_centroids ==> probes(k, n_centroids) == k,
        1 <= n_centroids < k ==> probes(k, n_centroids) == n_centroids,
        k < 1 || n_centroids < 1 ==> probes(k, n_centroids) == 1,
{
}

/// A graph is built over a matrix of finite numbers on the first graphics device or on none, as long
/// as it has entries and can be held; it has the sizes of the matrix and the parameters given, and
/// its list of candidates is never empty. Otherwise the first thing that is wrong is reported.
pub proof fn graphs_are_built_over_matrices(t: TensorValue, params: HnswBuildParams)
    ensures
        ({
            let r = graph_of(t, params);
            let wrong = t.device is Cuda && t.device->Cuda_0 != 0;
            let matrix = t.shape@.len() == 2;
            let rows = t.shape@[0];
            let cols = t.shape@[1];
            let finite = forall|i: int|
                0 <= i < t.values@.len() ==> (#[trigger] t.values@[i].bits / 0x0080_0000) % 0x100
                    != 0xff;
            &&& r matches Ok(g) ==> {
                &&& !wrong
                &&& matrix
                &&& finite
                &&& 1 <= rows <= usize::MAX
                &&& 1 <= cols <= usize::MAX
                &&& rows * cols <= usize::MAX
                &&& g.n == rows
                &&& g.dim == cols
                &&& g.graph_degree == params.m
                &&& g.intermediate_graph_degree == params.ef_construction
                &&& g.itopk_size >= 1
                &&& params.ef_search >= 1 ==> g.itopk_size == params.ef_search
                &&& params.ef_search == 0 ==> g.itopk_size == 1
            }
            &&& wrong <==> r == Err::<HnswCentroidState, CentroidError>(
                CentroidError::WrongDevice(t.device->Cuda_0),
            )
            &&& !wrong && !matrix <==> r == Err::<HnswCentroidState, CentroidError>(
                CentroidError::BadCentroidShape,
            )
            &&& !wrong && matrix && !(0 <= rows <= usize::MAX) <==> r == Err::<
                HnswCentroidState,
                CentroidError,
            >(CentroidError::CentroidCountOutOfRange)
            &&& !wrong && matrix && 0 <= rows <= usize::MAX && !(0 <= cols <= usize::MAX) <==> r
                == Err::<HnswCentroidState, CentroidError>(CentroidError::DimOutOfRange)
            &&& !wrong && matrix && 0 <= rows <= usize::MAX && 0 <= cols <= usize::MAX && (rows == 0
                || cols == 0) <==> r == Err::<HnswCentroidState, CentroidError>(
                CentroidError::EmptyCentroids,
            )
            &&& !wrong && matrix && 0 < rows <= usize::MAX && 0 < cols <= usize::MAX && !finite
                <==> r == Err::<HnswCentroidState, CentroidError>(CentroidError::NotFinite)
            &&& !wrong && matrix && 0 < rows <= usize::MAX && 0 < cols <= usize::MAX && finite
                && rows * cols > usize::MAX <==> r == Err::<HnswCentroidState, CentroidError>(
                CentroidError::TooManyEntries,
            )
        }),
{
    lemma_finite_by_bits(t);
}

proof fn lemma_finite_by_bits(t: TensorValue)
    ensures
        all_finite(t) <==> forall|i: int|
            0 <= i < t.values@.len() ==> (#[trigger] t.values@[i].bits / 0x0080_0000) % 0x100
                != 0xff,
{
    if all_finite(t) {
        assert forall|i: int| 0 <= i < t.values@.len() implies (
        #[trigger] t.values@[i].bits / 0x0080_0000) % 0x100 != 0xff by {
            assert(t.values@[i].is_finite());
            finite_by_exponent(t.values@[i]);
        }
    }
    if forall|i: int|
        0 <= i < t.values@.len() ==> (#[trigger] t.values@[i].bits / 0x0080_0000) % 0x100 != 0xff {
        assert forall|i: int| 0 <= i < t.values@.len() implies #[trigger] t.values@[i].is_finite() by {
            assert((t.values@[i].bits / 0x0080_0000) % 0x100 != 0xff);
            finite_by_exponent(t.values@[i]);
        }
    }
}

/// Queries are searched for when they are a matrix of finite numbers of the dimension of the index,
/// on the first graphics device or on none, when there are as many centroids as the index was built
/// over, and when the padded block can be held. Otherwise the first thing that is wrong is
/// reported.
pub proof fn queries_fit_the_graph(
    g: HnswCentroidState,
    n_centroids: i64,
    queries: TensorValue,
    pad_to: int,
)
    requires
        is_tensor(queries),
    ensures
        ({
            let r = g.topk_fault(n_centroids, queries, pad_to);
            let wrong = queries.device is Cuda && queries.device->Cuda_0 != 0;
            let matrix = !wrong && queries.shape@.len() == 2;
            let rows = queries.shape@[0];
            let cols = queries.shape@[1];
            let finite = forall|i: int|
                0 <= i < queries.values@.len() ==> (
                #[trigger] queries.values@[i].bits / 0x0080_0000) % 0x100 != 0xff;
            let fits = matrix && cols <= usize::MAX && cols == g.dim && n_centroids == g.n && rows
                <= usize::MAX && finite;
            let padded = rows * repeats_for(rows as int, pad_to);
            &&& r is None <==> fits && padded <= usize::MAX && padded * cols <= usize::MAX
            &&& wrong <==> r == Some(CentroidError::WrongDevice(queries.device->Cuda_0))
            &&& !wrong && queries.shape@.len() != 2 <==> r == Some(CentroidError::BadQueryShape)
            &&& matrix && cols > usize::MAX <==> r == Some(CentroidError::DimOutOfRange)
            &&& matrix && cols <= usize::MAX && cols != g.dim <==> r == Some(
                CentroidError::DimMismatch,
            )
            &&& matrix && cols <= usize::MAX && cols == g.dim && n_centroids != g.n <==> r == Some(
                CentroidError::SizeMismatch,
            )
            &&& matrix && cols <= usize::MAX && cols == g.dim && n_centroids == g.n && rows
                > usize::MAX <==> r == Some(CentroidError::QueryCountOutOfRange)
            &&& matrix && cols <= usize::MAX && cols == g.dim && n_centroids == g.n && rows
                <= usize::MAX && !finite <==> r == Some(CentroidError::NotFinite)
            &&& fits && padded > usize::MAX <==> r == Some(CentroidError::TooManyQueries)
            &&& fits && padded <= usize::MAX && padded * cols > usize::MAX <==> r == Some(
                CentroidError::QueryBufferTooLarge,
            )
        }),
{
    lemma_finite_by_bits(queries);
}

/// The dense index needs nothing; a graph needs a backend that builds it, and its centroids.
pub proof fn graphs_need_a_backend(
    config: CentroidIndexConfig,
    t: TensorValue,
    graph_available: bool,
)
    ensures
        config is Dense ==> index_for(config, t, graph_available) == Ok::<
            CentroidIndex,
            CentroidError,
        >(CentroidIndex::Dense),
        config is Hnsw && !graph_available ==> index_for(config, t, graph_available) == Err::<
            CentroidIndex,
            CentroidError,
        >(CentroidError::GraphUnavailable),
        config is Hnsw && graph_available ==> match graph_of(t, config->params) {
            Ok(g) => index_for(config, t, graph_available) == Ok::<CentroidIndex, CentroidError>(
                CentroidIndex::Hnsw { hnsw: g },
            ),
            Err(e) => index_for(config, t, graph_available) == Err::<CentroidIndex, CentroidError>(
                e,
            ),
        },
{
}

/// A search of the graph is laid out for all queries: as many cells for each as are asked for and
/// there are, a list of candidates that holds them and is no shorter than that of the graph, and the
/// block of queries as often as the padding takes.
pub proof fn graph_searches_cover_the_queries(
    g: &HnswCentroidState,
    n_centroids: i64,
    queries: &TensorValue,
    k: i64,
    algo: Option<&str>,
    pad_to: Option<&str>,
    r: Result<TopkPlan, CentroidError>,
)
    requires
        call_ensures(
            HnswCentroidState::topk_centroids,
            (g, n_centroids, queries, k, algo, pad_to),
            r,
        ),
        is_tensor(*queries),
        queries.shape@[0] > 0,
    ensures
        r is Ok <==> g.topk_fault(n_centroids, *queries, pad_rows(setting(pad_to)) as int) is None,
        r matches Ok(p) ==> {
            &&& p.k >= 1
            &&& 1 <= k <= n_centroids ==> p.k == k
            &&& 1 <= n_centroids < k ==> p.k == n_centroids
            &&& k < 1 ==> p.k == 1
            &&& p.itopk_size >= p.k
            &&& p.itopk_size >= g.itopk_size
            &&& p.itopk_size == p.k || p.itopk_size == g.itopk_size
            &&& p.rows == queries.shape@[0]
            &&& p.search_rows >= p.rows
            &&& p.queries@.len() == p.search_rows * queries.shape@[1]
            &&& p.queries@.take(queries.values@.len() as int) == queries.values@
            &&& algo is None ==> p.algo == SearchAlgoMode::Auto
        },
{
    if let Ok(p) = r {
        let rows = queries.shape@[0] as int;
        let cols = queries.shape@[1] as int;
        let n = repeats_for(rows, pad_rows(setting(pad_to)) as int);
        let values = queries.values@;
        blocks_are_repeated_as_often_as_needed(rows, pad_rows(setting(pad_to)) as int);
        assert(0 <= queries.shape@[1]);
        assert(rows * n >= rows && values.len() * n == rows * n * cols && values.len() * n
            >= values.len()) by (nonlinear_arith)
            requires
                rows > 0,
                n >= 1,
                cols >= 0,
                values.len() == rows * cols,
        ;
        assert(p.queries@.take(values.len() as int) =~= values) by {
            assert forall|i: int| 0 <= i < values.len() implies #[trigger] p.queries@[i]
                == values[i] by {
                repeated_blocks_hold_the_block(values, n, 0, i);
                assert(0 * values.len() == 0);
            }
        }
    }
}

/// The cells found for the queries are handed on row by row, and those found for padding are left
/// out.
pub proof fn padding_finds_no_cells(plan: &TopkPlan, neighbors: &Vec<u32>, r: Vec<i64>, i: int)
    requires
        call_ensures(TopkPlan::neighbor_ids, (plan, neighbors), r),
        0 <= i < r@.len(),
    ensures
        r@.len() == plan.rows * plan.k,
        r@[i] == neighbors@[i],
{
}

/// A choice among candidates is handed on query by query: the cell at a rank of a query is the
/// candidate that stands at the place chosen for it.
pub proof fn chosen_places_stand_for_candidates(
    candidate_ids: &Vec<i64>,
    local_ids: &Vec<i64>,
    k: usize,
    rows: usize,
    r: Vec<i64>,
    q: int,
    j: int,
)
    requires
        call_ensures(CentroidIndex::masked_topk, (candidate_ids, local_ids, k, rows), r),
        0 <= q < rows,
        0 <= j < k,
    ensures
        r@.len() == rows * k,
        r@[q * k + j] == candidate_ids@[local_ids@[j * rows + q] as int],
{
}

/// A text names a search mode when it is one of the names, or stands for the automatic mode by being
/// empty or saying so.
pub proof fn named_modes_are_known(text: &str, r: bool)
    requires
        call_ensures(names_search_algo, (text,), r),
    ensures
        r <==> {
            let name = ascii_lower(text@);
            ||| name.len() == 0
            ||| name == "auto"@
            ||| name == "single"@
            ||| name == "single_cta"@
            ||| name == "multi"@
            ||| name == "multi_cta"@
            ||| name == "multi_tuned"@
        },
{
    modes_go_by_their_names(text@);
}

} // verus!
