use vstd::prelude::*;

verus! {

/// Minimum Argon2 memory cost in KiB (8 MiB).
pub const M_COST_MIN: u32 = 8192;

/// Maximum Argon2 memory cost in KiB (1 GiB); guards against unusable memory requests.
pub const M_COST_MAX: u32 = 1048576;

/// Minimum number of Argon2 iterations.
pub const T_COST_MIN: u32 = 1;

/// Minimum Argon2 parallelism.
pub const P_COST_MIN: u8 = 1;

/// Argon2id cost parameters as carried in a payload header.
#[derive(Debug, Clone, Copy, PartialEq, Eq, Structural)]
pub struct Argon2Params {
    /// Memory cost in KiB.
    pub m_cost: u32,
    /// Number of iterations.
    pub t_cost: u32,
    /// Degree of parallelism (lanes).
    pub p_cost: u8,
}

/// Why a set of parameters was refused by [`Argon2Params::validate`].
#[derive(Debug, Clone, Copy, PartialEq, Eq, Structural)]
pub enum ParamError {
    /// Memory cost outside `[M_COST_MIN, M_COST_MAX]`.
    MCost(u32),
    /// Iteration count below `T_COST_MIN`.
    TCost(u32),
    /// Parallelism below `P_COST_MIN`.
    PCost(u8),
}

/// The outcome of validation, checked in order: memory, then time, then parallelism.
pub open spec fn spec_validate(p: Argon2Params) -> Result<(), ParamError> {
    if p.m_cost < M_COST_MIN || p.m_cost > M_COST_MAX {
        Err(ParamError::MCost(p.m_cost))
    } else if p.t_cost < T_COST_MIN {
        Err(ParamError::TCost(p.t_cost))
    } else if p.p_cost < P_COST_MIN {
        Err(ParamError::PCost(p.p_cost))
    } else {
        Ok(())
    }
}

/// Parameters that Argon2 itself accepts: at least 8 KiB per lane, one pass, one lane.
pub open spec fn argon2_accepts(p: Argon2Params) -> bool {
    &&& p.m_cost >= 8 * (p.p_cost as int)
    &&& p.t_cost >= 1
    &&& p.p_cost >= 1
}

impl Default for Argon2Params {
    /// The recommended defaults: 64 MiB, one pass, one lane.
    fn default() -> (r: Argon2Params)
        ensures
            r == (Argon2Params { m_cost: 65536, t_cost: 1, p_cost: 1 }),
    {
        Argon2Params { m_cost: 65536, t_cost: 1, p_cost: 1 }
    }
}

impl Argon2Params {
    /// Checks the parameters against this format's accepted ranges.
    pub fn validate(&self) -> (r: Result<(), ParamError>)
        ensures
            r == spec_validate(*self),
            r is Ok ==> argon2_accepts(*self),
    {
        if self.m_cost < M_COST_MIN || self.m_cost > M_COST_MAX {
            return Err(ParamError::MCost(self.m_cost));
        }
        if self.t_cost < T_COST_MIN {
            return Err(ParamError::TCost(self.t_cost));
        }
        if self.p_cost < P_COST_MIN {
            return Err(ParamError::PCost(self.p_cost));
        }
        Ok(())
    }

    /// Whether Argon2 accepts these parameters (at least 8 KiB per lane, one
    /// pass, one lane); implied by a successful [`Argon2Params::validate`].
    pub fn argon2_accepts(&self) -> (r: bool)
        ensures
            r == argon2_accepts(*self),
    {
        self.m_cost >= 8 * (self.p_cost as u32) && self.t_cost >= 1 && self.p_cost >= 1
    }
}

/// Validation accepts exactly the parameters in range: memory cost between
/// `M_COST_MIN` and `M_COST_MAX`, at least `T_COST_MIN` iterations (with no upper
/// bound) and at least `P_COST_MIN` lanes; a refusal names the first field out
/// of range, in the order memory, time, parallelism, with its value.
pub proof fn law_validate_accepts_in_range(p: Argon2Params)
    ensures
        spec_validate(p) is Ok <==> (M_COST_MIN <= p.m_cost <= M_COST_MAX && p.t_cost
            >= T_COST_MIN && p.p_cost >= P_COST_MIN),
        !(M_COST_MIN <= p.m_cost <= M_COST_MAX) ==> spec_validate(p) == Err::<(), ParamError>(
            ParamError::MCost(p.m_cost),
        ),
        M_COST_MIN <= p.m_cost <= M_COST_MAX && p.t_cost < T_COST_MIN ==> spec_validate(p)
            == Err::<(), ParamError>(ParamError::TCost(p.t_cost)),
        M_COST_MIN <= p.m_cost <= M_COST_MAX && p.t_cost >= T_COST_MIN && p.p_cost < P_COST_MIN
            ==> spec_validate(p) == Err::<(), ParamError>(ParamError::PCost(p.p_cost)),
        spec_validate(p) is Ok ==> argon2_accepts(p),
{
}

/// Raising the iteration count or the number of lanes of accepted parameters,
/// or moving the memory cost within its range, keeps them accepted.
pub proof fn law_validate_monotone(p: Argon2Params, q: Argon2Params)
    requires
        spec_validate(p) is Ok,
        q.t_cost >= p.t_cost,
        q.p_cost >= p.p_cost,
        M_COST_MIN <= q.m_cost <= M_COST_MAX,
    ensures
        spec_validate(q) is Ok,
{
}

} // verus!
