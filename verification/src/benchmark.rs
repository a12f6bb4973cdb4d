//! What the benchmark programs compute: their arguments, sizes, and figures.
use vstd::prelude::*;

use crate::placement::{
    AntiJoinPlacementPolicy, DistinctPlacementPolicy, JoinPlacementPolicy, UnionPlacementPolicy,
};
use crate::recursion::IterationPolicies;
use crate::storage;
use crate::storage::{Error, Relation};
use crate::text;
use crate::text::{chars_of, same_text};

verus! {

/// The `usize` that a text denotes: an optional plus sign and at least one digit, within range.
pub open spec fn parsed_usize(text: Seq<char>) -> Option<usize> {
    let digits = text::without_plus(text);
    if digits.len() > 0 && text::all_digits(digits) && text::numeral(digits) <= usize::MAX {
        Some(text::numeral(digits) as usize)
    } else {
        None
    }
}

/// A number has no fewer digits than any of its beginnings.
proof fn lemma_numeral_prefix(digits: Seq<char>, length: int)
    requires
        0 <= length <= digits.len(),
        text::all_digits(digits),
    ensures
        text::numeral(digits.take(length)) <= text::numeral(digits),
    decreases digits.len() - length,
{
    if length < digits.len() {
        lemma_numeral_prefix(digits, length + 1);
        assert(digits.take(length + 1).drop_last() =~= digits.take(length));
        assert(text::is_digit(digits[length]));
    } else {
        assert(digits.take(length) =~= digits);
    }
}

/// Reads a `usize`: an optional plus sign followed by decimal digits.
pub fn parse_usize(source: &str) -> (result: Option<usize>)
    ensures
        result == parsed_usize(source@),
{
    let chars = chars_of(source);
    let first: usize = if chars.len() > 0 && chars[0] == '+' {
        1
    } else {
        0
    };
    let ghost digits = text::without_plus(source@);
    proof {
        assert(digits =~= chars@.subrange(first as int, chars@.len() as int));
    }
    if first == chars.len() {
        return None;
    }
    let mut value: usize = 0;
    let mut i: usize = first;
    assert(digits.take(0) =~= Seq::<char>::empty());
    while i < chars.len()
        invariant
            first <= i <= chars@.len(),
            digits == text::without_plus(source@),
            digits == chars@.subrange(first as int, chars@.len() as int),
            digits.len() > 0,
            value == text::numeral(digits.take(i - first)),
            forall|j: int| 0 <= j < i - first ==> text::is_digit(#[trigger] digits[j]),
        decreases chars@.len() - i,
    {
        let c = chars[i];
        proof {
            assert(digits[i - first] == c);
            assert(digits.take(i - first + 1).drop_last() =~= digits.take(i - first));
            if text::all_digits(digits) {
                lemma_numeral_prefix(digits, i - first + 1);
            }
        }
        if c < '0' || c > '9' {
            assert(!text::is_digit(digits[i - first]));
            return None;
        }
        let digit: usize = (c as u32 - '0' as u32) as usize;
        let shifted: usize = match value.checked_mul(10) {
            Some(shifted) => shifted,
            None => {
                return None;
            },
        };
        value = match shifted.checked_add(digit) {
            Some(sum) => sum,
            None => {
                return None;
            },
        };
        i += 1;
    }
    assert(digits.take(digits.len() as int) =~= digits);
    Some(value)
}

/// Which options a benchmark knows besides `--output` and `--quick`.
#[derive(Debug, Clone, Copy, PartialEq, Eq, Structural)]
pub struct KnownOptions {
    pub graph: bool,
    pub samples: bool,
}

/// The configuration of a benchmark, seen as plain data.
#[verifier::ext_equal]
pub struct BenchmarkView {
    pub graph: Seq<char>,
    pub output: Option<Seq<char>>,
    pub quick: bool,
    pub samples: Option<usize>,
}

#[derive(Debug, Clone, PartialEq, Eq)]
pub struct BenchmarkConfig {
    pub graph: String,
    pub output: Option<String>,
    pub quick: bool,
    pub samples: Option<usize>,
}

impl View for BenchmarkConfig {
    type V = BenchmarkView;

    open spec fn view(&self) -> BenchmarkView {
        BenchmarkView {
            graph: self.graph@,
            output: match self.output {
                Some(output) => Some(output@),
                None => None,
            },
            quick: self.quick,
            samples: self.samples,
        }
    }
}

/// The configuration without arguments.
pub open spec fn default_benchmark() -> BenchmarkView {
    BenchmarkView {
        graph: "reference/gdlog/data/com-dblp/edge.facts"@,
        output: None,
        quick: false,
        samples: None,
    }
}

/// A sample count, or why a text is none.
pub open spec fn sample_argument(value: Seq<char>) -> Result<usize, Seq<char>> {
    match parsed_usize(value) {
        None => Err("invalid sample count: "@ + value),
        Some(count) => if count == 0 {
            Err("sample count must be greater than zero"@)
        } else {
            Ok(count)
        },
    }
}

/// A configuration with the arguments from one on, or what is wrong with the first bad one.
pub open spec fn configured(
    arguments: Seq<Seq<char>>,
    known: KnownOptions,
    from: int,
    config: BenchmarkView,
) -> Result<BenchmarkView, Seq<char>>
    decreases arguments.len() - from,
{
    if from < 0 || from >= arguments.len() {
        Ok(config)
    } else {
        let argument = arguments[from];
        let value = arguments[from + 1];
        let missing = from + 1 >= arguments.len();
        if known.graph && argument == "--graph"@ {
            if missing {
                Err("--graph requires a path"@)
            } else {
                configured(arguments, known, from + 2, BenchmarkView { graph: value, ..config })
            }
        } else if argument == "--output"@ {
            if missing {
                Err("--output requires a path"@)
            } else {
                configured(
                    arguments,
                    known,
                    from + 2,
                    BenchmarkView { output: Some(value), ..config },
                )
            }
        } else if argument == "--quick"@ {
            configured(arguments, known, from + 1, BenchmarkView { quick: true, ..config })
        } else if known.samples && argument == "--samples"@ {
            if missing {
                Err("--samples requires a count"@)
            } else {
                match sample_argument(value) {
                    Err(message) => Err(message),
                    Ok(count) => configured(
                        arguments,
                        known,
                        from + 2,
                        BenchmarkView { samples: Some(count), ..config },
                    ),
                }
            }
        } else {
            Err("unknown argument: "@ + argument)
        }
    }
}

fn with_detail(prefix: &str, detail: &str) -> (message: String)
    ensures
        message@ == prefix@ + detail@,
{
    let mut message = prefix.to_owned();
    message.append(detail);
    message
}

fn parse_samples(value: &str) -> (result: Result<usize, String>)
    ensures
        match sample_argument(value@) {
            Ok(count) => result is Ok && result->Ok_0 == count,
            Err(message) => result is Err && result->Err_0@ == message,
        },
{
    match parse_usize(value) {
        None => Err(with_detail("invalid sample count: ", value)),
        Some(count) => if count == 0 {
            Err("sample count must be greater than zero".to_owned())
        } else {
            Ok(count)
        },
    }
}

/// Reads the arguments of a benchmark.
pub fn parse_benchmark(arguments: &Vec<String>, known: KnownOptions) -> (result: Result<
    BenchmarkConfig,
    String,
>)
    ensures
        match configured(text::text_views(arguments@), known, 0, default_benchmark()) {
            Ok(config) => result is Ok && result->Ok_0@ == config,
            Err(message) => result is Err && result->Err_0@ == message,
        },
{
    let ghost views = text::text_views(arguments@);
    let mut config = BenchmarkConfig {
        graph: "reference/gdlog/data/com-dblp/edge.facts".to_owned(),
        output: None,
        quick: false,
        samples: None,
    };
    let mut i: usize = 0;
    assert(config@ =~= default_benchmark());
    while i < arguments.len()
        invariant
            i <= arguments@.len(),
            views == text::text_views(arguments@),
            configured(views, known, 0, default_benchmark()) == configured(
                views,
                known,
                i as int,
                config@,
            ),
        decreases arguments@.len() - i,
    {
        let argument = arguments[i].as_str();
        let ghost before = config@;
        assert(views[i as int] == argument@);
        let missing = arguments.len() - i == 1;
        if known.graph && same_text(argument, "--graph") {
            if missing {
                return Err("--graph requires a path".to_owned());
            }
            assert(views[i + 1] == arguments@[i + 1]@);
            config.graph = arguments[i + 1].clone();
            assert(config@ =~= BenchmarkView { graph: views[i + 1], ..before });
            i += 2;
        } else if same_text(argument, "--output") {
            if missing {
                return Err("--output requires a path".to_owned());
            }
            assert(views[i + 1] == arguments@[i + 1]@);
            config.output = Some(arguments[i + 1].clone());
            assert(config@ =~= BenchmarkView { output: Some(views[i + 1]), ..before });
            i += 2;
        } else if same_text(argument, "--quick") {
            config.quick = true;
            assert(config@ =~= BenchmarkView { quick: true, ..before });
            i += 1;
        } else if known.samples && same_text(argument, "--samples") {
            if missing {
                return Err("--samples requires a count".to_owned());
            }
            assert(views[i + 1] == arguments@[i + 1]@);
            match parse_samples(arguments[i + 1].as_str()) {
                Ok(count) => {
                    config.samples = Some(count);
                    assert(config@ =~= BenchmarkView { samples: Some(count), ..before });
                },
                Err(message) => {
                    return Err(message);
                },
            }
            i += 2;
        } else {
            return Err(with_detail("unknown argument: ", argument));
        }
    }
    Ok(config)
}

/// Where the closure benchmark runs its operators.
#[derive(Debug, Clone, Copy, PartialEq, Eq, Structural)]
pub enum ClosureBackend {
    Auto,
    Cpu,
    Gpu,
}

#[derive(Debug, Clone, Copy, PartialEq, Eq, Structural)]
pub struct ClosureConfig {
    pub vertices: usize,
    pub max_iterations: usize,
    pub backend: ClosureBackend,
}

/// A vertex count, or why a text is none.
pub open spec fn vertex_argument(value: Seq<char>) -> Result<usize, Seq<char>> {
    match parsed_usize(value) {
        None => Err("invalid vertex count: "@ + value),
        Some(count) => if 2 <= count <= 4_096 {
            Ok(count)
        } else {
            Err("vertex count must be between 2 and 4,096"@)
        },
    }
}

/// A backend, or why a text names none.
pub open spec fn backend_argument(value: Seq<char>) -> Result<ClosureBackend, Seq<char>> {
    if value == "auto"@ {
        Ok(ClosureBackend::Auto)
    } else if value == "cpu"@ {
        Ok(ClosureBackend::Cpu)
    } else if value == "gpu"@ {
        Ok(ClosureBackend::Gpu)
    } else {
        Err("invalid backend: "@ + value)
    }
}

/// A configuration with the arguments from one on, or what is wrong with the first bad one.
pub open spec fn closure_configured(
    arguments: Seq<Seq<char>>,
    from: int,
    config: ClosureConfig,
) -> Result<ClosureConfig, Seq<char>>
    decreases arguments.len() - from,
{
    if from < 0 || from >= arguments.len() {
        Ok(config)
    } else {
        let argument = arguments[from];
        let value = arguments[from + 1];
        let missing = from + 1 >= arguments.len();
        if argument == "--vertices"@ {
            if missing {
                Err("--vertices requires a count"@)
            } else {
                match vertex_argument(value) {
                    Err(message) => Err(message),
                    Ok(vertices) => closure_configured(
                        arguments,
                        from + 2,
                        ClosureConfig { vertices, ..config },
                    ),
                }
            }
        } else if argument == "--max-iterations"@ {
            if missing {
                Err("--max-iterations requires a count"@)
            } else {
                match parsed_usize(value) {
                    None => Err("invalid iteration count: "@ + value),
                    Some(max_iterations) => closure_configured(
                        arguments,
                        from + 2,
                        ClosureConfig { max_iterations, ..config },
                    ),
                }
            }
        } else if argument == "--backend"@ {
            if missing {
                Err("--backend requires auto, cpu, or gpu"@)
            } else {
                match backend_argument(value) {
                    Err(message) => Err(message),
                    Ok(backend) => closure_configured(
                        arguments,
                        from + 2,
                        ClosureConfig { backend, ..config },
                    ),
                }
            }
        } else {
            Err("unknown argument: "@ + argument)
        }
    }
}

fn parse_vertices(value: &str) -> (result: Result<usize, String>)
    ensures
        match vertex_argument(value@) {
            Ok(count) => result is Ok && result->Ok_0 == count,
            Err(message) => result is Err && result->Err_0@ == message,
        },
{
    match parse_usize(value) {
        None => Err(with_detail("invalid vertex count: ", value)),
        Some(count) => if 2 <= count && count <= 4_096 {
            Ok(count)
        } else {
            Err("vertex count must be between 2 and 4,096".to_owned())
        },
    }
}

fn parse_backend(value: &str) -> (result: Result<ClosureBackend, String>)
    ensures
        match backend_argument(value@) {
            Ok(backend) => result is Ok && result->Ok_0 == backend,
            Err(message) => result is Err && result->Err_0@ == message,
        },
{
    if same_text(value, "auto") {
        Ok(ClosureBackend::Auto)
    } else if same_text(value, "cpu") {
        Ok(ClosureBackend::Cpu)
    } else if same_text(value, "gpu") {
        Ok(ClosureBackend::Gpu)
    } else {
        Err(with_detail("invalid backend: ", value))
    }
}

/// Reads the arguments of the closure benchmark.
pub fn parse_closure(arguments: &Vec<String>) -> (result: Result<ClosureConfig, String>)
    ensures
        match closure_configured(
            text::text_views(arguments@),
            0,
            (ClosureConfig { vertices: 128, max_iterations: 1_024, backend: ClosureBackend::Auto }),
        ) {
            Ok(config) => result is Ok && result->Ok_0 == config,
            Err(message) => result is Err && result->Err_0@ == message,
        },
{
    let ghost views = text::text_views(arguments@);
    let mut config = ClosureConfig {
        vertices: 128,
        max_iterations: 1_024,
        backend: ClosureBackend::Auto,
    };
    let ghost first = config;
    let mut i: usize = 0;
    while i < arguments.len()
        invariant
            i <= arguments@.len(),
            views == text::text_views(arguments@),
            first == (ClosureConfig {
                vertices: 128,
                max_iterations: 1_024,
                backend: ClosureBackend::Auto,
            }),
            closure_configured(views, 0, first) == closure_configured(views, i as int, config),
        decreases arguments@.len() - i,
    {
        let argument = arguments[i].as_str();
        assert(views[i as int] == argument@);
        let missing = arguments.len() - i == 1;
        if same_text(argument, "--vertices") {
            if missing {
                return Err("--vertices requires a count".to_owned());
            }
            assert(views[i + 1] == arguments@[i + 1]@);
            match parse_vertices(arguments[i + 1].as_str()) {
                Ok(vertices) => {
                    config.vertices = vertices;
                },
                Err(message) => {
                    return Err(message);
                },
            }
        } else if same_text(argument, "--max-iterations") {
            if missing {
                return Err("--max-iterations requires a count".to_owned());
            }
            assert(views[i + 1] == arguments@[i + 1]@);
            match parse_usize(arguments[i + 1].as_str()) {
                Some(limit) => {
                    config.max_iterations = limit;
                },
                None => {
                    return Err(
                        with_detail("invalid iteration count: ", arguments[i + 1].as_str()),
                    );
                },
            }
        } else if same_text(argument, "--backend") {
            if missing {
                return Err("--backend requires auto, cpu, or gpu".to_owned());
            }
            assert(views[i + 1] == arguments@[i + 1]@);
            match parse_backend(arguments[i + 1].as_str()) {
                Ok(backend) => {
                    config.backend = backend;
                },
                Err(message) => {
                    return Err(message);
                },
            }
        } else {
            return Err(with_detail("unknown argument: ", argument));
        }
        i += 2;
    }
    Ok(config)
}

/// Policies under which every operator runs on one processor core.
pub fn cpu_policies() -> (policies: IterationPolicies)
    ensures
        policies.join == (JoinPlacementPolicy {
            gpu_min_delta_rows: usize::MAX,
            gpu_unavailable_parallel_min_rows: usize::MAX,
        }),
        policies.distinct == (DistinctPlacementPolicy {
            cpu_produced_gpu_min_rows: usize::MAX,
            gpu_produced_gpu_min_rows: usize::MAX,
            gpu_unavailable_parallel_min_rows: usize::MAX,
        }),
        policies.anti_join == (AntiJoinPlacementPolicy {
            cpu_produced_gpu_min_rows: usize::MAX,
            gpu_produced_gpu_min_rows: usize::MAX,
            cpu_produced_parallel_min_rows: usize::MAX,
            gpu_produced_parallel_min_rows: usize::MAX,
        }),
        policies.union == (UnionPlacementPolicy {
            cpu_produced_gpu_min_rows: usize::MAX,
            gpu_produced_gpu_min_rows: usize::MAX,
            gpu_unavailable_parallel_min_rows: usize::MAX,
        }),
{
    policies_from(usize::MAX)
}

/// Policies under which every operator runs on the device, where there is one.
pub fn gpu_policies() -> (policies: IterationPolicies)
    ensures
        policies.join == (JoinPlacementPolicy {
            gpu_min_delta_rows: 0,
            gpu_unavailable_parallel_min_rows: usize::MAX,
        }),
        policies.distinct == (DistinctPlacementPolicy {
            cpu_produced_gpu_min_rows: 0,
            gpu_produced_gpu_min_rows: 0,
            gpu_unavailable_parallel_min_rows: usize::MAX,
        }),
        policies.anti_join == (AntiJoinPlacementPolicy {
            cpu_produced_gpu_min_rows: 0,
            gpu_produced_gpu_min_rows: 0,
            cpu_produced_parallel_min_rows: usize::MAX,
            gpu_produced_parallel_min_rows: usize::MAX,
        }),
        policies.union == (UnionPlacementPolicy {
            cpu_produced_gpu_min_rows: 0,
            gpu_produced_gpu_min_rows: 0,
            gpu_unavailable_parallel_min_rows: usize::MAX,
        }),
{
    policies_from(0)
}

fn policies_from(gpu_rows: usize) -> (policies: IterationPolicies)
    ensures
        policies.join == (JoinPlacementPolicy {
            gpu_min_delta_rows: gpu_rows,
            gpu_unavailable_parallel_min_rows: usize::MAX,
        }),
        policies.distinct == (DistinctPlacementPolicy {
            cpu_produced_gpu_min_rows: gpu_rows,
            gpu_produced_gpu_min_rows: gpu_rows,
            gpu_unavailable_parallel_min_rows: usize::MAX,
        }),
        policies.anti_join == (AntiJoinPlacementPolicy {
            cpu_produced_gpu_min_rows: gpu_rows,
            gpu_produced_gpu_min_rows: gpu_rows,
            cpu_produced_parallel_min_rows: usize::MAX,
            gpu_produced_parallel_min_rows: usize::MAX,
        }),
        policies.union == (UnionPlacementPolicy {
            cpu_produced_gpu_min_rows: gpu_rows,
            gpu_produced_gpu_min_rows: gpu_rows,
            gpu_unavailable_parallel_min_rows: usize::MAX,
        }),
{
    IterationPolicies {
        join: JoinPlacementPolicy {
            gpu_min_delta_rows: gpu_rows,
            gpu_unavailable_parallel_min_rows: usize::MAX,
        },
        distinct: DistinctPlacementPolicy {
            cpu_produced_gpu_min_rows: gpu_rows,
            gpu_produced_gpu_min_rows: gpu_rows,
            gpu_unavailable_parallel_min_rows: usize::MAX,
        },
        anti_join: AntiJoinPlacementPolicy {
            cpu_produced_gpu_min_rows: gpu_rows,
            gpu_produced_gpu_min_rows: gpu_rows,
            cpu_produced_parallel_min_rows: usize::MAX,
            gpu_produced_parallel_min_rows: usize::MAX,
        },
        union: UnionPlacementPolicy {
            cpu_produced_gpu_min_rows: gpu_rows,
            gpu_produced_gpu_min_rows: gpu_rows,
            gpu_unavailable_parallel_min_rows: usize::MAX,
        },
    }
}

/// How many of the numbers below `rows` leave a remainder below `selectivity` when divided by a
/// hundred.
pub open spec fn selected_count(rows: nat, selectivity: nat) -> nat
    decreases rows,
{
    if rows == 0 {
        0
    } else {
        selected_count((rows - 1) as nat, selectivity) + if (rows - 1) % 100 < selectivity {
            1nat
        } else {
            0
        }
    }
}

proof fn lemma_selected_count(rows: nat, selectivity: nat)
    requires
        selectivity <= 100,
    ensures
        selected_count(rows, selectivity) == (rows / 100) * selectivity + if rows % 100
            < selectivity {
            rows % 100
        } else {
            selectivity
        },
    decreases rows,
{
    if rows > 0 {
        lemma_selected_count((rows - 1) as nat, selectivity);
        if rows % 100 == 0 {
            assert((rows - 1) / 100 == rows / 100 - 1);
            assert((rows - 1) % 100 == 99);
            assert((rows / 100) * selectivity == (rows / 100 - 1) * selectivity + selectivity)
                by (nonlinear_arith);
        } else {
            assert((rows - 1) / 100 == (rows / 100) as int);
            assert((rows - 1) % 100 == rows % 100 - 1);
        }
    }
}

/// How many rows of a column that counts up to ninety-nine and starts again pass a filter for
/// values below `selectivity`.
pub fn expected_selected(rows: usize, selectivity: usize) -> (selected: usize)
    requires
        selectivity <= 100,
    ensures
        selected == selected_count(rows as nat, selectivity as nat),
{
    proof {
        lemma_selected_count(rows as nat, selectivity as nat);
    }
    let whole: usize = rows / 100;
    let rest: usize = rows % 100;
    assert(whole * selectivity <= whole * 100) by (nonlinear_arith)
        requires
            selectivity <= 100,
    ;
    let more: usize = if rest < selectivity {
        rest
    } else {
        selectivity
    };
    whole * selectivity + more
}

/// How often a filter of a number of rows is timed.
pub fn filter_samples(rows: usize) -> (samples: usize)
    ensures
        samples == (if rows <= 8_192 {
            25int
        } else if rows <= 524_288 {
            10
        } else {
            5
        }),
{
    if rows <= 8_192 {
        25
    } else if rows <= 524_288 {
        10
    } else {
        5
    }
}

/// How often a join of a number of newest rows is timed.
pub fn join_samples(delta_rows: usize) -> (samples: usize)
    ensures
        samples == (if delta_rows <= 8_192 {
            15int
        } else if delta_rows <= 131_072 {
            7
        } else {
            3
        }),
{
    if delta_rows <= 8_192 {
        15
    } else if delta_rows <= 131_072 {
        7
    } else {
        3
    }
}

/// How often removing repetitions is timed, for a number of newest rows.
pub fn distinct_samples(delta_rows: usize) -> (samples: usize)
    ensures
        samples == (if delta_rows <= 8_192 {
            10int
        } else if delta_rows <= 131_072 {
            5
        } else {
            3
        }),
{
    if delta_rows <= 8_192 {
        10
    } else if delta_rows <= 131_072 {
        5
    } else {
        3
    }
}

/// How often a union is timed, for a number of newest rows.
pub fn union_samples(delta_rows: usize) -> (samples: usize)
    ensures
        samples == (if delta_rows <= 8_192 {
            7int
        } else if delta_rows <= 131_072 {
            5
        } else {
            3
        }),
{
    if delta_rows <= 8_192 {
        7
    } else if delta_rows <= 131_072 {
        5
    } else {
        3
    }
}

/// The measurement below which a share of the ascending measurements lies.
pub fn percentile(sorted: &[u128], numerator: usize, denominator: usize) -> (value: u128)
    requires
        sorted@.len() > 0,
        0 < denominator,
        numerator <= denominator,
        (sorted@.len() - 1) * numerator <= usize::MAX,
    ensures
        value == sorted@[(sorted@.len() - 1) * numerator / (denominator as int)],
{
    let last: usize = sorted.len() - 1;
    proof {
        assert(0 <= last * numerator / (denominator as int) <= last) by (nonlinear_arith)
            requires
                0 < denominator,
                0 <= numerator <= denominator,
        ;
    }
    let index: usize = last * numerator / denominator;
    sorted[index]
}

/// The column lengths that the filter benchmark goes through.
pub fn filter_rows(quick: bool) -> (rows: Vec<usize>)
    ensures
        rows@ == (if quick {
            seq![32usize, 4_096usize, 131_072usize]
        } else {
            seq![
                32usize,
                128usize,
                512usize,
                2_048usize,
                8_192usize,
                32_768usize,
                131_072usize,
                524_288usize,
                2_097_152usize,
                8_388_608usize,
            ]
        }),
{
    let rows: Vec<usize> = if quick {
        vec![32, 4_096, 131_072]
    } else {
        vec![32, 128, 512, 2_048, 8_192, 32_768, 131_072, 524_288, 2_097_152, 8_388_608]
    };
    rows
}

/// The numbers of newest rows that the other benchmarks go through.
pub fn delta_sizes(quick: bool, edges: usize) -> (rows: Vec<usize>)
    ensures
        rows@ == (if quick {
            seq![32usize, 8_192usize, 131_072usize]
        } else {
            seq![
                32usize,
                128usize,
                512usize,
                2_048usize,
                8_192usize,
                32_768usize,
                131_072usize,
                524_288usize,
                edges,
            ]
        }),
{
    let rows: Vec<usize> = if quick {
        vec![32, 8_192, 131_072]
    } else {
        vec![32, 128, 512, 2_048, 8_192, 32_768, 131_072, 524_288, edges]
    };
    rows
}

/// The relation of a chain: each vertex with the next.
pub fn chain_edges(vertices: usize) -> (result: Result<Relation, Error>)
    requires
        0 < vertices <= u32::MAX,
    ensures
        result is Ok <==> storage::size_fits::<u32>((vertices - 1) as nat),
        result matches Ok(edge) ==> {
            &&& edge.wf()
            &&& edge.contents() == seq![
                Seq::new((vertices - 1) as nat, |i: int| i as u32),
                Seq::new((vertices - 1) as nat, |i: int| (i + 1) as u32),
            ]
        },
        result matches Err(error) ==> error == Error::LengthOverflow,
{
    let edges: usize = vertices - 1;
    let mut edge = match Relation::new(2, edges) {
        Ok(edge) => edge,
        Err(error) => {
            return Err(error);
        },
    };
    let ghost firsts = Seq::new(edges as nat, |i: int| i as u32);
    let ghost seconds = Seq::new(edges as nat, |i: int| (i + 1) as u32);
    let ghost zeros = Seq::new(edges as nat, |i: int| 0u32);
    proof {
        assert(edge.contents()[0] =~= zeros);
        assert(edge.contents()[1] =~= zeros);
        assert(firsts.take(0) + zeros.skip(0) =~= zeros);
        assert(seconds.take(0) + zeros.skip(0) =~= zeros);
    }
    let mut row: usize = 0;
    while row < edges
        invariant
            row <= edges < u32::MAX,
            firsts == Seq::new(edges as nat, |i: int| i as u32),
            seconds == Seq::new(edges as nat, |i: int| (i + 1) as u32),
            zeros == Seq::new(edges as nat, |i: int| 0u32),
            edge.contents().len() == 2,
            edge.contents()[0] == firsts.take(row as int) + zeros.skip(row as int),
            edge.contents()[1] == seconds.take(row as int) + zeros.skip(row as int),
        decreases edges - row,
    {
        match edge.column_mut(0) {
            Some(column) => column.put(row, row as u32),
            None => {},
        }
        match edge.column_mut(1) {
            Some(column) => column.put(row, row as u32 + 1),
            None => {},
        }
        proof {
            assert(edge.contents()[0] =~= firsts.take(row + 1) + zeros.skip(row + 1));
            assert(edge.contents()[1] =~= seconds.take(row + 1) + zeros.skip(row + 1));
        }
        row += 1;
    }
    proof {
        assert(edge.contents()[0] =~= firsts);
        assert(edge.contents()[1] =~= seconds);
        assert(edge.contents() =~= seq![firsts, seconds]);
    }
    Ok(edge)
}

/// How many pairs of vertices of a chain lie one after the other.
pub fn chain_pairs(vertices: usize) -> (pairs: usize)
    requires
        0 < vertices,
        vertices * (vertices - 1) <= usize::MAX,
    ensures
        pairs == vertices * (vertices - 1) / 2,
{
    vertices * (vertices - 1) / 2
}

/// Whether a value is the largest of two columns, or zero if they are empty.
pub open spec fn is_largest(columns: Seq<Seq<u32>>, value: u32) -> bool {
    &&& forall|c: int, i: int|
        #![trigger columns[c][i]]
        0 <= c < columns.len() && 0 <= i < columns[c].len() ==> columns[c][i] <= value
    &&& value == 0 || exists|c: int, i: int|
        #![trigger columns[c][i]]
        0 <= c < columns.len() && 0 <= i < columns[c].len() && columns[c][i] == value
}

/// The largest value of a relation.
pub fn largest_value(relation: &Relation) -> (largest: u32)
    ensures
        is_largest(relation.contents(), largest),
{
    let mut largest: u32 = 0;
    let mut c: usize = 0;
    let ghost columns = relation.contents();
    while c < relation.arity()
        invariant
            c <= columns.len(),
            columns == relation.contents(),
            forall|a: int, i: int|
                #![trigger columns[a][i]]
                0 <= a < c && 0 <= i < columns[a].len() ==> columns[a][i] <= largest,
            largest == 0 || exists|a: int, i: int|
                #![trigger columns[a][i]]
                0 <= a < columns.len() && 0 <= i < columns[a].len() && columns[a][i] == largest,
        decreases columns.len() - c,
    {
        match relation.column(c) {
            Some(column) => {
                let values = column.as_slice();
                let mut i: usize = 0;
                while i < values.len()
                    invariant
                        i <= values@.len(),
                        c < columns.len(),
                        values@ == columns[c as int],
                        forall|a: int, k: int|
                            #![trigger columns[a][k]]
                            0 <= a < c && 0 <= k < columns[a].len() ==> columns[a][k] <= largest,
                        forall|k: int| 0 <= k < i ==> #[trigger] columns[c as int][k] <= largest,
                        largest == 0 || exists|a: int, k: int|
                            #![trigger columns[a][k]]
                            0 <= a < columns.len() && 0 <= k < columns[a].len() && columns[a][k]
                                == largest,
                    decreases values@.len() - i,
                {
                    if values[i] > largest {
                        largest = values[i];
                        assert(columns[c as int][i as int] == largest);
                    }
                    i += 1;
                }
            },
            None => {},
        }
        c += 1;
    }
    largest
}

/// The bound of the filter that a graph is tried with: a tenth of its largest vertex.
pub fn filter_cutoff(largest: u32) -> (cutoff: u32)
    ensures
        cutoff == largest / 10 + 1,
{
    largest / 10 + 1
}

} // verus!
