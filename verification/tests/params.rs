use osm_core::{Argon2Params, ParamError, M_COST_MAX};

#[test]
fn defaults_are_owasp() {
    let p = Argon2Params::default();
    assert_eq!(p, Argon2Params { m_cost: 65536, t_cost: 1, p_cost: 1 });
    assert!(p.validate().is_ok());
}

#[test]
fn rejects_low_memory() {
    let p = Argon2Params { m_cost: 1024, ..Default::default() };
    assert_eq!(p.validate(), Err(ParamError::MCost(1024)));
}

#[test]
fn rejects_excessive_memory() {
    let p = Argon2Params { m_cost: M_COST_MAX + 1, ..Default::default() };
    assert_eq!(p.validate(), Err(ParamError::MCost(M_COST_MAX + 1)));
}

#[test]
fn rejects_zero_iterations() {
    let p = Argon2Params { t_cost: 0, ..Default::default() };
    assert_eq!(p.validate(), Err(ParamError::TCost(0)));
}

#[test]
fn rejects_zero_lanes() {
    let p = Argon2Params { p_cost: 0, ..Default::default() };
    assert_eq!(p.validate(), Err(ParamError::PCost(0)));
}

#[test]
fn memory_is_checked_before_time() {
    let p = Argon2Params { m_cost: 0, t_cost: 0, p_cost: 0 };
    assert_eq!(p.validate(), Err(ParamError::MCost(0)));
}

#[test]
fn bounds_are_inclusive() {
    assert!(Argon2Params { m_cost: 8192, t_cost: 1, p_cost: 1 }.validate().is_ok());
    assert!(Argon2Params { m_cost: 1048576, t_cost: 1, p_cost: 1 }.validate().is_ok());
    assert_eq!(
        Argon2Params { m_cost: 8191, t_cost: 1, p_cost: 1 }.validate(),
        Err(ParamError::MCost(8191))
    );
}

#[test]
fn argon2_accepts_follows_lanes() {
    assert!(Argon2Params { m_cost: 16, t_cost: 1, p_cost: 2 }.argon2_accepts());
    assert!(!Argon2Params { m_cost: 15, t_cost: 1, p_cost: 2 }.argon2_accepts());
    assert!(!Argon2Params { m_cost: 65536, t_cost: 0, p_cost: 1 }.argon2_accepts());
    assert!(!Argon2Params { m_cost: 65536, t_cost: 1, p_cost: 0 }.argon2_accepts());
}
