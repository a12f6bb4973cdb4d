//! Which processor runs an operator.
use vstd::prelude::*;

verus! {

/// The implementation that an operator runs on.
#[derive(Debug, Clone, Copy, PartialEq, Eq, Structural)]
pub enum Placement {
    CpuSerial,
    CpuParallel,
    Gpu,
}

/// The processor that last wrote the input.
#[derive(Debug, Clone, Copy, PartialEq, Eq, Structural)]
pub enum InputProvenance {
    Cpu,
    Gpu,
}

/// The device where it is there and the input is large enough for it; without it, the thread pool
/// where the input is large enough for that; the calling thread otherwise.
pub open spec fn placed(
    rows: int,
    gpu_available: bool,
    gpu_min_rows: usize,
    parallel_min_rows: usize,
) -> Placement {
    if gpu_available && rows >= gpu_min_rows {
        Placement::Gpu
    } else if !gpu_available && rows >= parallel_min_rows {
        Placement::CpuParallel
    } else {
        Placement::CpuSerial
    }
}

fn choose_placement(
    rows: usize,
    gpu_available: bool,
    gpu_min_rows: usize,
    parallel_min_rows: usize,
) -> (placement: Placement)
    ensures
        placement == placed(rows as int, gpu_available, gpu_min_rows, parallel_min_rows),
{
    if gpu_available && rows >= gpu_min_rows {
        Placement::Gpu
    } else if !gpu_available && rows >= parallel_min_rows {
        Placement::CpuParallel
    } else {
        Placement::CpuSerial
    }
}

#[derive(Debug, Clone, Copy, PartialEq, Eq)]
pub struct FilterPlacementContext {
    pub rows: usize,
    pub input_provenance: InputProvenance,
    pub gpu_available: bool,
}

/// Cardinality thresholds for selecting rows.
#[derive(Debug, Clone, Copy, PartialEq, Eq)]
pub struct FilterPlacementPolicy {
    pub cpu_produced_gpu_min_rows: usize,
    pub gpu_produced_gpu_min_rows: usize,
    pub gpu_unavailable_parallel_min_rows: usize,
}

impl FilterPlacementPolicy {
    /// Thresholds measured on one machine over several selectivities.
    pub fn measured_gb10() -> (policy: Self)
        ensures
            policy.cpu_produced_gpu_min_rows == 131_072,
            policy.gpu_produced_gpu_min_rows == 32_768,
            policy.gpu_unavailable_parallel_min_rows == 8_388_608,
    {
        FilterPlacementPolicy {
            cpu_produced_gpu_min_rows: 131_072,
            gpu_produced_gpu_min_rows: 32_768,
            gpu_unavailable_parallel_min_rows: 8_388_608,
        }
    }

    pub open spec fn placement(self, context: FilterPlacementContext) -> Placement {
        placed(
            context.rows as int,
            context.gpu_available,
            match context.input_provenance {
                InputProvenance::Cpu => self.cpu_produced_gpu_min_rows,
                InputProvenance::Gpu => self.gpu_produced_gpu_min_rows,
            },
            self.gpu_unavailable_parallel_min_rows,
        )
    }

    pub fn place(self, context: FilterPlacementContext) -> (placement: Placement)
        ensures
            placement == self.placement(context),
    {
        let gpu_min_rows: usize = match context.input_provenance {
            InputProvenance::Cpu => self.cpu_produced_gpu_min_rows,
            InputProvenance::Gpu => self.gpu_produced_gpu_min_rows,
        };
        choose_placement(
            context.rows,
            context.gpu_available,
            gpu_min_rows,
            self.gpu_unavailable_parallel_min_rows,
        )
    }
}

#[derive(Debug, Clone, Copy, PartialEq, Eq)]
pub struct JoinPlacementContext {
    pub delta_rows: usize,
    pub gpu_available: bool,
}

/// Cardinality thresholds for indexed joins.
#[derive(Debug, Clone, Copy, PartialEq, Eq)]
pub struct JoinPlacementPolicy {
    pub gpu_min_delta_rows: usize,
    pub gpu_unavailable_parallel_min_rows: usize,
}

impl JoinPlacementPolicy {
    /// Thresholds measured on one machine and one graph. Fanout and key skew matter as much as the
    /// number of rows, so that they are specific to that graph.
    pub fn measured_gb10_dblp() -> (policy: Self)
        ensures
            policy.gpu_min_delta_rows == 2_048,
            policy.gpu_unavailable_parallel_min_rows == 2_048,
    {
        JoinPlacementPolicy {
            gpu_min_delta_rows: 2_048,
            gpu_unavailable_parallel_min_rows: 2_048,
        }
    }

    pub open spec fn placement(self, context: JoinPlacementContext) -> Placement {
        placed(
            context.delta_rows as int,
            context.gpu_available,
            self.gpu_min_delta_rows,
            self.gpu_unavailable_parallel_min_rows,
        )
    }

    pub fn place(self, context: JoinPlacementContext) -> (placement: Placement)
        ensures
            placement == self.placement(context),
    {
        choose_placement(
            context.delta_rows,
            context.gpu_available,
            self.gpu_min_delta_rows,
            self.gpu_unavailable_parallel_min_rows,
        )
    }
}

#[derive(Debug, Clone, Copy, PartialEq, Eq)]
pub struct DistinctPlacementContext {
    pub rows: usize,
    pub input_provenance: InputProvenance,
    pub gpu_available: bool,
}

/// Cardinality thresholds for sorting pairs and removing repetitions.
#[derive(Debug, Clone, Copy, PartialEq, Eq)]
pub struct DistinctPlacementPolicy {
    pub cpu_produced_gpu_min_rows: usize,
    pub gpu_produced_gpu_min_rows: usize,
    pub gpu_unavailable_parallel_min_rows: usize,
}

impl DistinctPlacementPolicy {
    /// Thresholds measured on one machine, on the candidates of one graph.
    pub fn measured_gb10_dblp() -> (policy: Self)
        ensures
            policy.cpu_produced_gpu_min_rows == 32_768,
            policy.gpu_produced_gpu_min_rows == 32_768,
            policy.gpu_unavailable_parallel_min_rows == 131_072,
    {
        DistinctPlacementPolicy {
            cpu_produced_gpu_min_rows: 32_768,
            gpu_produced_gpu_min_rows: 32_768,
            gpu_unavailable_parallel_min_rows: 131_072,
        }
    }

    pub open spec fn placement(self, context: DistinctPlacementContext) -> Placement {
        placed(
            context.rows as int,
            context.gpu_available,
            match context.input_provenance {
                InputProvenance::Cpu => self.cpu_produced_gpu_min_rows,
                InputProvenance::Gpu => self.gpu_produced_gpu_min_rows,
            },
            self.gpu_unavailable_parallel_min_rows,
        )
    }

    pub fn place(self, context: DistinctPlacementContext) -> (placement: Placement)
        ensures
            placement == self.placement(context),
    {
        let gpu_min_rows: usize = match context.input_provenance {
            InputProvenance::Cpu => self.cpu_produced_gpu_min_rows,
            InputProvenance::Gpu => self.gpu_produced_gpu_min_rows,
        };
        choose_placement(
            context.rows,
            context.gpu_available,
            gpu_min_rows,
            self.gpu_unavailable_parallel_min_rows,
        )
    }
}

#[derive(Debug, Clone, Copy, PartialEq, Eq)]
pub struct AntiJoinPlacementContext {
    pub left_rows: usize,
    pub input_provenance: InputProvenance,
    pub gpu_available: bool,
}

/// Cardinality thresholds for subtracting sorted relations.
#[derive(Debug, Clone, Copy, PartialEq, Eq)]
pub struct AntiJoinPlacementPolicy {
    pub cpu_produced_gpu_min_rows: usize,
    pub gpu_produced_gpu_min_rows: usize,
    pub cpu_produced_parallel_min_rows: usize,
    pub gpu_produced_parallel_min_rows: usize,
}

impl AntiJoinPlacementPolicy {
    /// Thresholds measured on one machine, on the candidates of one graph.
    pub fn measured_gb10_dblp() -> (policy: Self)
        ensures
            policy.cpu_produced_gpu_min_rows == 32_768,
            policy.gpu_produced_gpu_min_rows == 16_384,
            policy.cpu_produced_parallel_min_rows == 32_768,
            policy.gpu_produced_parallel_min_rows == 262_144,
    {
        AntiJoinPlacementPolicy {
            cpu_produced_gpu_min_rows: 32_768,
            gpu_produced_gpu_min_rows: 16_384,
            cpu_produced_parallel_min_rows: 32_768,
            gpu_produced_parallel_min_rows: 262_144,
        }
    }

    pub open spec fn placement(self, context: AntiJoinPlacementContext) -> Placement {
        match context.input_provenance {
            InputProvenance::Cpu => placed(
                context.left_rows as int,
                context.gpu_available,
                self.cpu_produced_gpu_min_rows,
                self.cpu_produced_parallel_min_rows,
            ),
            InputProvenance::Gpu => placed(
                context.left_rows as int,
                context.gpu_available,
                self.gpu_produced_gpu_min_rows,
                self.gpu_produced_parallel_min_rows,
            ),
        }
    }

    pub fn place(self, context: AntiJoinPlacementContext) -> (placement: Placement)
        ensures
            placement == self.placement(context),
    {
        match context.input_provenance {
            InputProvenance::Cpu => choose_placement(
                context.left_rows,
                context.gpu_available,
                self.cpu_produced_gpu_min_rows,
                self.cpu_produced_parallel_min_rows,
            ),
            InputProvenance::Gpu => choose_placement(
                context.left_rows,
                context.gpu_available,
                self.gpu_produced_gpu_min_rows,
                self.gpu_produced_parallel_min_rows,
            ),
        }
    }
}

#[derive(Debug, Clone, Copy, PartialEq, Eq)]
pub struct UnionPlacementContext {
    pub left_rows: usize,
    pub right_rows: usize,
    pub input_provenance: InputProvenance,
    pub gpu_available: bool,
}

/// Thresholds on the rows of both sides for uniting sorted relations.
#[derive(Debug, Clone, Copy, PartialEq, Eq)]
pub struct UnionPlacementPolicy {
    pub cpu_produced_gpu_min_rows: usize,
    pub gpu_produced_gpu_min_rows: usize,
    pub gpu_unavailable_parallel_min_rows: usize,
}

impl UnionPlacementPolicy {
    /// Thresholds measured on one machine, on the updates of one graph.
    pub fn measured_gb10_dblp() -> (policy: Self)
        ensures
            policy.cpu_produced_gpu_min_rows == 1_048_576,
            policy.gpu_produced_gpu_min_rows == 1_048_576,
            policy.gpu_unavailable_parallel_min_rows == 4_194_304,
    {
        UnionPlacementPolicy {
            cpu_produced_gpu_min_rows: 1_048_576,
            gpu_produced_gpu_min_rows: 1_048_576,
            gpu_unavailable_parallel_min_rows: 4_194_304,
        }
    }

    pub open spec fn placement(self, context: UnionPlacementContext) -> Placement {
        placed(
            context.left_rows + context.right_rows,
            context.gpu_available,
            match context.input_provenance {
                InputProvenance::Cpu => self.cpu_produced_gpu_min_rows,
                InputProvenance::Gpu => self.gpu_produced_gpu_min_rows,
            },
            self.gpu_unavailable_parallel_min_rows,
        )
    }

    pub fn place(self, context: UnionPlacementContext) -> (placement: Placement)
        ensures
            placement == self.placement(context),
    {
        let rows: usize = context.left_rows.saturating_add(context.right_rows);
        let gpu_min_rows: usize = match context.input_provenance {
            InputProvenance::Cpu => self.cpu_produced_gpu_min_rows,
            InputProvenance::Gpu => self.gpu_produced_gpu_min_rows,
        };
        choose_placement(
            rows,
            context.gpu_available,
            gpu_min_rows,
            self.gpu_unavailable_parallel_min_rows,
        )
    }
}

/// Without a device nothing is placed on it, and with one nothing is left to the thread pool.
pub proof fn law_placement_needs_its_processor(
    rows: int,
    gpu_available: bool,
    gpu_min_rows: usize,
    parallel_min_rows: usize,
)
    ensures
        placed(rows, gpu_available, gpu_min_rows, parallel_min_rows) == Placement::Gpu
            ==> gpu_available,
        placed(rows, gpu_available, gpu_min_rows, parallel_min_rows) == Placement::CpuParallel
            ==> !gpu_available,
{
}

} // verus!
