//! Econometric settings, the layout of panel data, and the
//! difference-in-differences estimator's state.

use vstd::prelude::*;
use crate::error::RustyAIError;
use crate::matrix::Matrix;

verus! {

/// Robust covariance estimator types.
#[derive(Debug, Clone, Copy)]
pub enum RobustCovarianceType {
    /// White's heteroskedasticity-robust (HC0)
    White,
    /// HC1: degrees of freedom adjustment
    HC1,
    /// HC2: leverage adjustment
    HC2,
    /// HC3: jackknife
    HC3,
    /// Newey-West HAC (heteroskedasticity and autocorrelation consistent)
    NeweyWest { lags: usize },
    /// Clustered standard errors
    Clustered,
}

/// Panel data: observations of `n_units` units over `n_periods` periods,
/// stored unit by unit (all periods of unit 0 first).
pub struct PanelData<A> {
    /// Data matrix (one row per observation)
    pub data: Matrix<A>,
    /// Dependent variable (one entry per observation)
    pub y: Vec<A>,
    /// Number of cross-sectional units
    pub n_units: usize,
    /// Number of time periods
    pub n_periods: usize,
    /// Unit of each observation
    pub unit_ids: Vec<usize>,
    /// Period of each observation
    pub time_ids: Vec<usize>,
}

impl<A> PanelData<A> {
    /// A balanced panel of `n_units * n_periods` observations: `data` and `y`
    /// must hold that many, else `DimensionMismatch`. Observation `i` belongs
    /// to unit `i / n_periods` and period `i % n_periods`.
    pub fn new(data: Matrix<A>, y: Vec<A>, n_units: usize, n_periods: usize) -> (r: Result<Self, RustyAIError>)
        requires
            n_units * n_periods <= usize::MAX,
        ensures
            r is Ok <==> data.spec_rows() == n_units * n_periods && y@.len() == n_units * n_periods,
            r matches Err(e) ==> e is DimensionMismatch,
            r matches Ok(p) ==> {
                &&& p.data == data && p.y@ == y@
                &&& p.n_units == n_units && p.n_periods == n_periods
                &&& p.unit_ids@.len() == n_units * n_periods && p.time_ids@.len() == n_units * n_periods
                &&& forall|i: int| 0 <= i < n_units * n_periods ==>
                        #[trigger] p.unit_ids@[i] == i / (n_periods as int) && p.time_ids@[i] == i % (n_periods as int)
            },
    {
        let n_obs = n_units * n_periods;
        if data.nrows() != n_obs || y.len() != n_obs {
            return Err(RustyAIError::DimensionMismatch(
                String::from_str("the panel's observations do not match the data and y"),
            ));
        }
        let mut unit_ids: Vec<usize> = Vec::new();
        let mut time_ids: Vec<usize> = Vec::new();
        let mut i: usize = 0;
        while i < n_obs
            invariant
                n_obs == n_units * n_periods,
                i <= n_obs,
                unit_ids@.len() == i,
                time_ids@.len() == i,
                forall|k: int| 0 <= k < i ==>
                    #[trigger] unit_ids@[k] == k / (n_periods as int) && time_ids@[k] == k % (n_periods as int),
            decreases n_obs - i,
        {
            assert(n_periods > 0) by (nonlinear_arith)
                requires
                    i < n_obs,
                    n_obs == n_units * n_periods,
            ;
            unit_ids.push(i / n_periods);
            time_ids.push(i % n_periods);
            i = i + 1;
        }
        Ok(PanelData { data, y, n_units, n_periods, unit_ids, time_ids })
    }

    /// Whether the data holds one row per unit and period.
    pub fn is_balanced(&self) -> (r: bool)
        requires
            self.n_units * self.n_periods <= usize::MAX,
        ensures
            r == (self.data.spec_rows() == self.n_units * self.n_periods),
    {
        self.data.nrows() == self.n_units * self.n_periods
    }
}

/// The degrees of freedom of an overidentification (Sargan-Hansen) test:
/// instruments beyond the parameters. An exactly identified model, with as
/// many instruments as parameters, has none to test: `InvalidParameter` on
/// `instruments`.
pub fn overidentification_df(n_instruments: usize, n_params: usize) -> (r: Result<usize, RustyAIError>)
    requires
        n_params <= n_instruments,
    ensures
        r is Err <==> n_instruments == n_params,
        r matches Err(e) ==> (e matches RustyAIError::InvalidParameter { name, reason }
            && name@ == "instruments"@
            && reason@ == "Exactly identified model - no overidentification test possible"@),
        r matches Ok(df) ==> df == n_instruments - n_params,
{
    let df = n_instruments - n_params;
    if df == 0 {
        return Err(RustyAIError::InvalidParameter {
            name: String::from_str("instruments"),
            reason: String::from_str("Exactly identified model - no overidentification test possible"),
        });
    }
    Ok(df)
}

/// Difference-in-differences estimator.
pub struct DifferenceInDifferences<A> {
    /// Treatment effect (DiD estimator)
    pub treatment_effect: Option<A>,
    /// Standard error
    pub std_error: Option<A>,
    /// Pre-treatment mean for treated
    pub pre_treated_mean: Option<A>,
    /// Pre-treatment mean for control
    pub pre_control_mean: Option<A>,
}

impl<A: Copy> DifferenceInDifferences<A> {
    /// An estimator with nothing estimated yet.
    pub fn new() -> (r: Self)
        ensures
            r.treatment_effect is None,
            r.std_error is None,
            r.pre_treated_mean is None,
            r.pre_control_mean is None,
    {
        Self { treatment_effect: None, std_error: None, pre_treated_mean: None, pre_control_mean: None }
    }

    /// The treatment effect estimate.
    pub fn treatment_effect(&self) -> (r: Option<A>)
        ensures
            r == self.treatment_effect,
    {
        self.treatment_effect
    }
}

} // verus!
