//! Baseline statistics, anomaly detection against a baseline bucket, and the
//! composite health score.
//!
//! A metric's samples are summarised by count, sum and sum of squares, so
//! means, variances and z-score comparisons are exact integer arithmetic:
//! with `n` samples of sum `s` and square sum `q`, the population variance
//! is `V / n^2` where `V = max(0, n*q - s^2)`, and a value `x` lies more than
//! `k` standard deviations above the mean exactly when `d = n*x - s > 0` and
//! `d^2 > k^2 * V`.
use vstd::prelude::*;
use vstd::string::*;

verus! {

/// Largest sample a summary accepts (exclusive).
pub const SAMPLE_LIMIT: u64 = 0x10_0000_0000;
/// Largest number of samples a summary accepts.
pub const COUNT_LIMIT: u64 = 0x10_0000;
/// Buckets with fewer samples are not compared against.
pub const MIN_BASELINE_SAMPLES: u64 = 5;

/// Sum of a sequence of samples.
pub open spec fn sum_of(xs: Seq<u64>) -> int
    decreases xs.len(),
{
    if xs.len() == 0 {
        0
    } else {
        sum_of(xs.drop_last()) + xs.last() as int
    }
}

/// Sum of the squares of a sequence of samples.
pub open spec fn square_sum_of(xs: Seq<u64>) -> int
    decreases xs.len(),
{
    if xs.len() == 0 {
        0
    } else {
        square_sum_of(xs.drop_last()) + xs.last() as int * xs.last() as int
    }
}

/// `n^2` times the population variance, clamped at zero.
pub open spec fn scaled_variance(n: int, s: int, q: int) -> int {
    if n * q - s * s > 0 {
        n * q - s * s
    } else {
        0
    }
}

/// Count, sum and square sum of one metric's samples.
#[derive(Clone, Copy, Debug, PartialEq, Eq, Structural)]
pub struct MetricStats {
    pub count: u64,
    pub sum: u128,
    pub square_sum: u128,
}

impl MetricStats {
    /// The summary describes some samples, each below `SAMPLE_LIMIT`, at
    /// most `COUNT_LIMIT` of them.
    pub open spec fn wf(&self) -> bool {
        &&& self.count <= COUNT_LIMIT
        &&& self.sum <= self.count * (SAMPLE_LIMIT - 1)
        &&& self.square_sum <= self.count * (SAMPLE_LIMIT - 1) * (SAMPLE_LIMIT - 1)
    }

    /// Whether this summary is that of `xs`.
    pub open spec fn summarises(&self, xs: Seq<u64>) -> bool {
        &&& self.count == xs.len()
        &&& self.sum == sum_of(xs)
        &&& self.square_sum == square_sum_of(xs)
    }

    pub open spec fn variance_spec(&self) -> int {
        scaled_variance(self.count as int, self.sum as int, self.square_sum as int)
    }

    pub fn empty() -> (r: MetricStats)
        ensures
            r.wf(),
            r.summarises(Seq::empty()),
    {
        MetricStats { count: 0, sum: 0, square_sum: 0 }
    }

    /// Adds sample `x` when it is below `SAMPLE_LIMIT` and the summary has
    /// room; says whether it did.
    pub fn add(&mut self, x: u64) -> (added: bool)
        requires
            old(self).wf(),
        ensures
            final(self).wf(),
            added == (x < SAMPLE_LIMIT && old(self).count < COUNT_LIMIT),
            added ==> final(self).count == old(self).count + 1 && final(self).sum == old(self).sum
                + x && final(self).square_sum == old(self).square_sum + x * x,
            !added ==> *final(self) == *old(self),
            forall|xs: Seq<u64>| #[trigger]
                old(self).summarises(xs) && added ==> final(self).summarises(xs.push(x)),
    {
        if x >= SAMPLE_LIMIT || self.count >= COUNT_LIMIT {
            return false;
        }
        let ghost n = self.count as int;
        proof {
            assert((n + 1) * (SAMPLE_LIMIT - 1) <= COUNT_LIMIT * (SAMPLE_LIMIT - 1)) by (nonlinear_arith)
                requires
                    n + 1 <= COUNT_LIMIT,
            ;
            assert(x * x <= (SAMPLE_LIMIT - 1) * (SAMPLE_LIMIT - 1)) by (nonlinear_arith)
                requires
                    x <= SAMPLE_LIMIT - 1,
            ;
            assert((n + 1) * (SAMPLE_LIMIT - 1) * (SAMPLE_LIMIT - 1) <= COUNT_LIMIT * (SAMPLE_LIMIT
                - 1) * (SAMPLE_LIMIT - 1)) by (nonlinear_arith)
                requires
                    n + 1 <= COUNT_LIMIT,
            ;
            assert(n * (SAMPLE_LIMIT - 1) * (SAMPLE_LIMIT - 1) + (SAMPLE_LIMIT - 1) * (SAMPLE_LIMIT
                - 1) == (n + 1) * (SAMPLE_LIMIT - 1) * (SAMPLE_LIMIT - 1)) by (nonlinear_arith);
        }
        self.count = self.count + 1;
        self.sum = self.sum + x as u128;
        self.square_sum = self.square_sum + (x as u128) * (x as u128);
        proof {
            assert forall|xs: Seq<u64>| #[trigger] old(self).summarises(xs) implies self.summarises(
                xs.push(x),
            ) by {
                assert(xs.push(x).drop_last() =~= xs);
            }
        }
        true
    }

    /// `count^2` times the population variance, never negative.
    pub fn scaled_variance(&self) -> (r: u128)
        requires
            self.wf(),
        ensures
            r == self.variance_spec(),
    {
        let n = self.count as u128;
        proof {
            lemma_stats_bounds(*self);
        }
        let a = n * self.square_sum;
        let b = self.sum * self.sum;
        if a > b {
            a - b
        } else {
            0
        }
    }
}

proof fn lemma_stats_bounds(st: MetricStats)
    requires
        st.wf(),
    ensures
        st.count as int * st.square_sum as int <= 0x1_0000_0000_0000_0000_0000_0000_0000,
        st.sum as int * st.sum as int <= 0x1_0000_0000_0000_0000_0000_0000_0000,
        st.sum < 0x100_0000_0000_0000,
{
    let n = st.count as int;
    let m = (SAMPLE_LIMIT - 1) as int;
    assert(n * m < 0x100_0000_0000_0000) by (nonlinear_arith)
        requires
            n <= 0x10_0000,
            0 <= n,
            m < 0x10_0000_0000,
            0 <= m,
    ;
    assert(st.sum as int <= n * m);
    assert(n * (n * m * m) <= 0x1_0000_0000_0000_0000_0000_0000_0000) by (nonlinear_arith)
        requires
            n <= 0x10_0000,
            0 <= n,
            m < 0x10_0000_0000,
            0 <= m,
    ;
    assert(n * st.square_sum as int <= n * (n * m * m)) by (nonlinear_arith)
        requires
            st.square_sum as int <= n * m * m,
            0 <= n,
    ;
    assert(st.sum as int * st.sum as int <= 0x1_0000_0000_0000_0000_0000_0000_0000) by (nonlinear_arith)
        requires
            st.sum as int <= 0x100_0000_0000_0000,
            0 <= st.sum,
    ;
}

/// Baseline variance is never negative, and a bucket of one sample has none.
pub proof fn lemma_variance_of_samples(st: MetricStats, xs: Seq<u64>)
    requires
        st.summarises(xs),
    ensures
        st.variance_spec() >= 0,
        xs.len() == 1 ==> st.variance_spec() == 0,
{
    if xs.len() == 1 {
        assert(xs.drop_last().len() == 0);
        assert(sum_of(xs.drop_last()) == 0);
        assert(square_sum_of(xs.drop_last()) == 0);
        assert(xs.last() == xs[0]);
        assert(sum_of(xs) == xs[0] as int);
        assert(square_sum_of(xs) == xs[0] as int * xs[0] as int);
        let a = xs[0] as int;
        assert(1 * (a * a) - a * a == 0) by (nonlinear_arith);
    }
}

/// Whether `x` lies more than `k` standard deviations above the mean of the
/// samples summarised by `st` (never when the deviation is zero).
pub open spec fn exceeds_sigmas(st: MetricStats, x: u64, k: int) -> bool {
    let d = st.count as int * x as int - st.sum as int;
    st.variance_spec() > 0 && d > 0 && d * d > k * k * st.variance_spec()
}

fn exceeds(st: &MetricStats, x: u64, k: u32) -> (r: bool)
    requires
        st.wf(),
        k <= 5,
    ensures
        r == exceeds_sigmas(*st, x, k as int),
{
    proof {
        lemma_stats_bounds(*st);
    }
    let v = st.scaled_variance();
    if v == 0 {
        return false;
    }
    proof {
        assert(st.count as int * x as int <= 0x10_0000 * 0xFFFF_FFFF_FFFF_FFFF) by (nonlinear_arith)
            requires
                st.count <= 0x10_0000,
                x <= 0xFFFF_FFFF_FFFF_FFFF,
        ;
        assert(v as int <= st.count as int * st.square_sum as int);
        assert((k as int * k as int) * v as int <= 25 * 0x1_0000_0000_0000_0000_0000_0000_0000) by (nonlinear_arith)
            requires
                k <= 5,
                v <= 0x1_0000_0000_0000_0000_0000_0000_0000,
        ;
    }
    let nx: u128 = (st.count as u128) * (x as u128);
    if nx <= st.sum {
        return false;
    }
    let d = nx - st.sum;
    if d >= 0x1000_0000_0000_0000 {
        proof {
            assert(d as int * d as int >= 0x1000_0000_0000_0000 * 0x1000_0000_0000_0000) by (nonlinear_arith)
                requires
                    d >= 0x1000_0000_0000_0000,
            ;
        }
        return true;
    }
    proof {
        assert(d as int * d as int <= 0x1000_0000_0000_0000 * 0x1000_0000_0000_0000) by (nonlinear_arith)
            requires
                d <= 0x1000_0000_0000_0000,
        ;
    }
    assert(k as int * k as int <= 25) by (nonlinear_arith)
        requires
            k <= 5,
    ;
    let kk: u128 = (k as u128) * (k as u128);
    d * d > kk * v
}

/// A value exactly `k` standard deviations above the mean is not beyond
/// the threshold; one more unit is.
pub proof fn lemma_threshold_is_strict(st: MetricStats, x: u64, k: int)
    requires
        st.count > 0,
        k >= 0,
        st.variance_spec() > 0,
        st.count as int * x as int - st.sum as int >= 0,
        (st.count as int * x as int - st.sum as int) * (st.count as int * x as int - st.sum as int)
            == k * k * st.variance_spec(),
        x < u64::MAX,
    ensures
        !exceeds_sigmas(st, x, k),
        exceeds_sigmas(st, (x + 1) as u64, k),
{
    let n = st.count as int;
    let d = n * x as int - st.sum as int;
    let d1 = n * (x + 1) as int - st.sum as int;
    assert(d1 == d + n) by (nonlinear_arith)
        requires
            d1 == n * (x + 1) as int - st.sum as int,
            d == n * x as int - st.sum as int,
    ;
    assert(d1 * d1 > d * d) by (nonlinear_arith)
        requires
            d1 == d + n,
            n > 0,
            d >= 0,
    ;
}


// ---------------------------------------------------------------- anomalies

/// Most anomalies reported for one session.
pub const MAX_ANOMALIES: usize = 20;

#[derive(Clone, Copy, Debug, PartialEq, Eq, Structural)]
pub enum AnomalyKind {
    ThroughputSpike,
    LatencySpike,
    ExcessiveFlows,
    UnusualProcess,
    NewCountry,
    UnusualPort,
}

#[derive(Clone, Copy, Debug, PartialEq, Eq, Structural)]
pub enum Severity {
    Low,
    Medium,
    High,
}

/// One finding: its kind and severity, the process or country it names (if
/// any), the observed value (a peak or a port; 0 for name findings), and,
/// for a deviation finding, the baseline summary it was measured against
/// (mean, standard deviation and deviation in standard deviations follow
/// from it).
pub struct Anomaly {
    pub kind: AnomalyKind,
    pub severity: Severity,
    pub subject: Option<String>,
    pub current_value: u64,
    pub baseline: Option<MetricStats>,
}

/// Statistics of one (hour-of-day, day-of-week) slot.
pub struct BaselineBucket {
    pub hour_of_day: u8,
    pub day_of_week: u8,
    pub bps: MetricStats,
    pub flows: MetricStats,
    pub latency: MetricStats,
    pub common_processes: Vec<String>,
    pub common_countries: Vec<String>,
}

impl BaselineBucket {
    pub open spec fn wf(&self) -> bool {
        self.bps.wf() && self.flows.wf() && self.latency.wf()
    }
}

/// Peak metrics of the session under test.
#[derive(Clone, Copy, Debug, PartialEq, Eq, Structural)]
pub struct SessionPeaks {
    pub bps: u64,
    pub flows: u64,
    pub latency_cms: u64,
}

/// A deviation finding for `x` against `st`: reported beyond `report`
/// standard deviations, medium beyond `medium`, high beyond `high`.
pub open spec fn sigma_finding(
    kind: AnomalyKind,
    st: MetricStats,
    x: u64,
    report: int,
    medium: int,
    high: int,
) -> Seq<Anomaly> {
    if exceeds_sigmas(st, x, report) {
        seq![
            Anomaly {
                kind,
                severity: if exceeds_sigmas(st, x, high) {
                    Severity::High
                } else if exceeds_sigmas(st, x, medium) {
                    Severity::Medium
                } else {
                    Severity::Low
                },
                subject: None,
                current_value: x,
                baseline: Some(st),
            },
        ]
    } else {
        Seq::empty()
    }
}

pub open spec fn listed(common: Seq<String>, name: String) -> bool {
    exists|j: int| 0 <= j < common.len() && #[trigger] common[j]@ == name@
}

/// A low-severity finding of `kind` for each name missing from `common`.
pub open spec fn name_findings(kind: AnomalyKind, names: Seq<String>, common: Seq<String>) -> Seq<Anomaly>
    decreases names.len(),
{
    if names.len() == 0 {
        Seq::empty()
    } else {
        let rest = name_findings(kind, names.drop_last(), common);
        if listed(common, names.last()) {
            rest
        } else {
            rest.push(
                Anomaly {
                    kind,
                    severity: Severity::Low,
                    subject: Some(names.last()),
                    current_value: 0,
                    baseline: None,
                },
            )
        }
    }
}

/// Ports of common services that are never flagged.
pub open spec fn is_standard_port(p: u16) -> bool {
    p == 20 || p == 21 || p == 22 || p == 25 || p == 53 || p == 67 || p == 68 || p == 80 || p
        == 110 || p == 123 || p == 143 || p == 161 || p == 194 || p == 389 || p == 443 || p == 445
        || p == 465 || p == 514 || p == 587 || p == 636 || p == 853 || p == 993 || p == 995 || p
        == 1080 || p == 1194 || p == 1433 || p == 1521 || p == 1723 || p == 3306 || p == 3389 || p
        == 5060 || p == 5222 || p == 5228 || p == 5353 || p == 5432 || p == 5900 || p == 5938 || p
        == 6379 || p == 8080 || p == 8443 || p == 8888 || p == 9090 || p == 9443 || p == 27017
}

/// First port of the ephemeral range.
pub const EPHEMERAL_PORT_START: u16 = 49152;

/// A port finding: a non-standard port below the ephemeral range, medium
/// for well-known ports (up to 1023), low for registered ones.
pub open spec fn port_findings(ports: Seq<u16>) -> Seq<Anomaly>
    decreases ports.len(),
{
    if ports.len() == 0 {
        Seq::empty()
    } else {
        let rest = port_findings(ports.drop_last());
        let p = ports.last();
        if !is_standard_port(p) && p > 0 && p < EPHEMERAL_PORT_START {
            rest.push(
                Anomaly {
                    kind: AnomalyKind::UnusualPort,
                    severity: if p <= 1023 {
                        Severity::Medium
                    } else {
                        Severity::Low
                    },
                    subject: None,
                    current_value: p as u64,
                    baseline: None,
                },
            )
        } else {
            rest
        }
    }
}

/// All findings for a session, before the cap.
pub open spec fn all_findings(
    b: BaselineBucket,
    peaks: SessionPeaks,
    processes: Seq<String>,
    countries: Seq<String>,
    ports: Seq<u16>,
) -> Seq<Anomaly> {
    if b.bps.count < MIN_BASELINE_SAMPLES {
        Seq::empty()
    } else {
        sigma_finding(AnomalyKind::ThroughputSpike, b.bps, peaks.bps, 2, 3, 4) + sigma_finding(
            AnomalyKind::LatencySpike,
            b.latency,
            peaks.latency_cms,
            2,
            3,
            4,
        ) + sigma_finding(AnomalyKind::ExcessiveFlows, b.flows, peaks.flows, 3, 4, 5)
            + name_findings(AnomalyKind::UnusualProcess, processes, b.common_processes@)
            + name_findings(AnomalyKind::NewCountry, countries, b.common_countries@)
            + port_findings(ports)
    }
}

pub open spec fn capped(s: Seq<Anomaly>) -> Seq<Anomaly> {
    if s.len() > MAX_ANOMALIES {
        s.take(MAX_ANOMALIES as int)
    } else {
        s
    }
}

fn push_sigma_finding(
    out: &mut Vec<Anomaly>,
    kind: AnomalyKind,
    st: &MetricStats,
    x: u64,
    report: u32,
    medium: u32,
    high: u32,
)
    requires
        st.wf(),
        report <= 5,
        medium <= 5,
        high <= 5,
    ensures
        final(out)@ == old(out)@ + sigma_finding(
            kind,
            *st,
            x,
            report as int,
            medium as int,
            high as int,
        ),
{
    if exceeds(st, x, report) {
        let severity = if exceeds(st, x, high) {
            Severity::High
        } else if exceeds(st, x, medium) {
            Severity::Medium
        } else {
            Severity::Low
        };
        out.push(Anomaly { kind, severity, subject: None, current_value: x, baseline: Some(*st) });
    }
    proof {
        let f = sigma_finding(kind, *st, x, report as int, medium as int, high as int);
        assert(final(out)@ =~= old(out)@ + f);
    }
}

fn is_listed(common: &Vec<String>, name: &String) -> (r: bool)
    ensures
        r == listed(common@, *name),
{
    let mut j: usize = 0;
    while j < common.len()
        invariant
            j <= common@.len(),
            forall|k: int| 0 <= k < j ==> #[trigger] common@[k]@ != name@,
        decreases common@.len() - j,
    {
        if common[j] == *name {
            return true;
        }
        j = j + 1;
    }
    false
}

fn push_name_findings(out: &mut Vec<Anomaly>, kind: AnomalyKind, names: &Vec<String>, common: &Vec<String>)
    ensures
        final(out)@ == old(out)@ + name_findings(kind, names@, common@),
{
    let mut i: usize = 0;
    while i < names.len()
        invariant
            i <= names@.len(),
            out@ == old(out)@ + name_findings(kind, names@.take(i as int), common@),
        decreases names@.len() - i,
    {
        let ghost before = out@;
        assert(names@.take(i as int + 1).drop_last() =~= names@.take(i as int));
        if !is_listed(common, &names[i]) {
            out.push(
                Anomaly {
                    kind,
                    severity: Severity::Low,
                    subject: Some(names[i].clone()),
                    current_value: 0,
                    baseline: None,
                },
            );
            assert(out@ =~= old(out)@ + name_findings(kind, names@.take(i as int + 1), common@));
        } else {
            assert(out@ =~= old(out)@ + name_findings(kind, names@.take(i as int + 1), common@));
        }
        i = i + 1;
    }
    assert(names@.take(names@.len() as int) =~= names@);
}

fn standard_port(p: u16) -> (r: bool)
    ensures
        r == is_standard_port(p),
{
    match p {
        20 | 21 | 22 | 25 | 53 | 67 | 68 | 80 | 110 | 123 | 143 | 161 | 194 | 389 | 443 | 445
        | 465 | 514 | 587 | 636 | 853 | 993 | 995 | 1080 | 1194 | 1433 | 1521 | 1723 | 3306
        | 3389 | 5060 | 5222 | 5228 | 5353 | 5432 | 5900 | 5938 | 6379 | 8080 | 8443 | 8888
        | 9090 | 9443 | 27017 => true,
        _ => false,
    }
}

fn push_port_findings(out: &mut Vec<Anomaly>, ports: &Vec<u16>)
    ensures
        final(out)@ == old(out)@ + port_findings(ports@),
{
    let mut i: usize = 0;
    while i < ports.len()
        invariant
            i <= ports@.len(),
            out@ == old(out)@ + port_findings(ports@.take(i as int)),
        decreases ports@.len() - i,
    {
        assert(ports@.take(i as int + 1).drop_last() =~= ports@.take(i as int));
        let p = ports[i];
        if !standard_port(p) && p > 0 && p < EPHEMERAL_PORT_START {
            let severity = if p <= 1023 {
                Severity::Medium
            } else {
                Severity::Low
            };
            out.push(Anomaly { kind: AnomalyKind::UnusualPort, severity, subject: None, current_value: p as u64, baseline: None });
        }
        assert(out@ =~= old(out)@ + port_findings(ports@.take(i as int + 1)));
        i = i + 1;
    }
    assert(ports@.take(ports@.len() as int) =~= ports@);
}

/// Compares a session against its time-slot baseline: peak throughput and
/// latency beyond 2 standard deviations (medium beyond 3, high beyond 4),
/// peak flow count beyond 3 (medium beyond 4, high beyond 5), processes and
/// countries absent from the baseline's common lists, and non-standard
/// ports below the ephemeral range. A bucket with too few samples yields
/// nothing; at most `MAX_ANOMALIES` findings are returned.
pub fn detect_anomalies(
    baseline: &BaselineBucket,
    peaks: SessionPeaks,
    processes: &Vec<String>,
    countries: &Vec<String>,
    ports: &Vec<u16>,
) -> (r: Vec<Anomaly>)
    requires
        baseline.wf(),
    ensures
        r@ == capped(all_findings(*baseline, peaks, processes@, countries@, ports@)),
{
    let mut out: Vec<Anomaly> = Vec::new();
    if baseline.bps.count < MIN_BASELINE_SAMPLES {
        assert(out@ =~= capped(all_findings(*baseline, peaks, processes@, countries@, ports@)));
        return out;
    }
    push_sigma_finding(&mut out, AnomalyKind::ThroughputSpike, &baseline.bps, peaks.bps, 2, 3, 4);
    push_sigma_finding(&mut out, AnomalyKind::LatencySpike, &baseline.latency, peaks.latency_cms, 2, 3, 4);
    push_sigma_finding(&mut out, AnomalyKind::ExcessiveFlows, &baseline.flows, peaks.flows, 3, 4, 5);
    push_name_findings(&mut out, AnomalyKind::UnusualProcess, processes, &baseline.common_processes);
    push_name_findings(&mut out, AnomalyKind::NewCountry, countries, &baseline.common_countries);
    push_port_findings(&mut out, ports);
    assert(out@ =~= all_findings(*baseline, peaks, processes@, countries@, ports@));
    out.truncate(MAX_ANOMALIES);
    out
}


/// Number of findings above low severity.
pub open spec fn non_low_count(s: Seq<Anomaly>) -> nat
    decreases s.len(),
{
    if s.len() == 0 {
        0
    } else {
        non_low_count(s.drop_last()) + if s.last().severity == Severity::Low {
            0nat
        } else {
            1nat
        }
    }
}

/// Counts the findings above low severity.
pub fn count_non_low(findings: &Vec<Anomaly>) -> (r: u64)
    requires
        findings@.len() <= u64::MAX,
    ensures
        r == non_low_count(findings@),
{
    let mut n: u64 = 0;
    let mut i: usize = 0;
    while i < findings.len()
        invariant
            i <= findings@.len() <= u64::MAX,
            n == non_low_count(findings@.take(i as int)),
            n <= i,
        decreases findings@.len() - i,
    {
        assert(findings@.take(i as int + 1).drop_last() =~= findings@.take(i as int));
        if findings[i].severity != Severity::Low {
            n = n + 1;
        }
        i = i + 1;
    }
    assert(findings@.take(findings@.len() as int) =~= findings@);
    n
}

// ---------------------------------------------------------------- health

/// Composite 0-100 health score and its four 0-25 parts.
pub struct HealthScore {
    pub score: u32,
    pub latency_score: u32,
    pub stability_score: u32,
    pub diversity_score: u32,
    pub anomaly_score: u32,
    pub details: String,
}

/// Latency at which the latency part reaches 0: 500 ms, in hundredths.
pub const LATENCY_SATURATION_CMS: u64 = 50_000;
/// Anomaly count at which the anomaly part reaches 0.
pub const ANOMALY_SATURATION: u64 = 5;

/// `a / b` rounded to the nearest integer, halves rounded up.
pub open spec fn round_ratio(a: int, b: int) -> int {
    (2 * a + b) / (2 * b)
}

/// Latency part: 25 at zero mean latency, falling linearly to 0 at the
/// saturation latency, rounded; `s` is the latency sum over `n` frames.
pub open spec fn latency_score_spec(n: int, s: int) -> int {
    if s >= LATENCY_SATURATION_CMS * n {
        0
    } else {
        round_ratio(25 * (LATENCY_SATURATION_CMS * n - s), LATENCY_SATURATION_CMS * n)
    }
}

/// Whether `25 * (1 - min(cv / 2, 1))`, with `cv = sqrt(v) / s` the
/// coefficient of variation, rounds to at least `k` (for `1 <= k <= 25`).
pub open spec fn stability_reaches(s: int, v: int, k: int) -> bool {
    (51 - 2 * k) * (51 - 2 * k) * (s * s) >= 625 * v
}

/// Number of `k` in `1..=upto` that the stability part reaches.
pub open spec fn stability_count(s: int, v: int, upto: int) -> int
    decreases upto,
{
    if upto <= 0 {
        0
    } else {
        stability_count(s, v, upto - 1) + if stability_reaches(s, v, upto) {
            1int
        } else {
            0int
        }
    }
}

/// Stability part: 25 for a flat throughput, falling with the coefficient
/// of variation to 0 at a coefficient of 2, rounded; 25 with no throughput.
pub open spec fn stability_score_spec(st: MetricStats) -> int {
    if st.sum == 0 {
        25
    } else {
        stability_count(st.sum as int, st.variance_spec(), 25)
    }
}

/// Protocol category totals over the scored window.
#[derive(Clone, Copy, Debug, PartialEq, Eq, Structural)]
pub struct ProtoTotals {
    pub tcp: u64,
    pub udp: u64,
    pub dns: u64,
    pub https: u64,
    pub http: u64,
    pub other: u64,
}

pub open spec fn used_categories(p: ProtoTotals) -> int {
    (if p.tcp > 0 { 1int } else { 0int }) + (if p.udp > 0 { 1int } else { 0int }) + (if p.dns
        > 0 { 1int } else { 0int }) + (if p.https > 0 { 1int } else { 0int }) + (if p.http > 0 {
        1int
    } else {
        0int
    }) + (if p.other > 0 { 1int } else { 0int })
}

/// Diversity part: the fraction of the six categories seen, times 25, rounded.
pub open spec fn diversity_score_spec(p: ProtoTotals) -> int {
    round_ratio(25 * used_categories(p), 6)
}

/// Anomaly part: 25 with no non-low finding, 5 less for each, down to 0.
pub open spec fn anomaly_score_spec(count: u64) -> int {
    if count >= ANOMALY_SATURATION {
        0
    } else {
        25 - 5 * count
    }
}

pub open spec fn health_details(total: int) -> Seq<char> {
    if total >= 80 {
        "Excellent network health"@
    } else if total >= 60 {
        "Good network health"@
    } else if total >= 40 {
        "Fair network health — some issues detected"@
    } else {
        "Poor network health — significant issues"@
    }
}

pub open spec fn no_data_details() -> Seq<char> {
    "No data available — start recording to compute health score"@
}

fn latency_score(st: &MetricStats) -> (r: u32)
    requires
        st.wf(),
    ensures
        r == latency_score_spec(st.count as int, st.sum as int),
        r <= 25,
{
    proof {
        lemma_stats_bounds(*st);
    }
    let full: u128 = (LATENCY_SATURATION_CMS as u128) * (st.count as u128);
    if st.sum >= full {
        return 0;
    }
    let a: u128 = 25 * (full - st.sum);
    let r = (2 * a + full) / (2 * full);
    proof {
        assert(r <= 25) by (nonlinear_arith)
            requires
                r == (2 * a + full) / (2 * full),
                a <= 25 * full,
                full > 0,
        ;
    }
    r as u32
}

fn stability_score(st: &MetricStats) -> (r: u32)
    requires
        st.wf(),
    ensures
        r == stability_score_spec(*st),
        r <= 25,
{
    if st.sum == 0 {
        return 25;
    }
    proof {
        lemma_stats_bounds(*st);
    }
    let v = st.scaled_variance();
    let ss: u128 = st.sum * st.sum;
    proof {
        assert(v as int <= st.count as int * st.square_sum as int);
    }
    let mut k: u32 = 1;
    let mut count: u32 = 0;
    while k <= 25
        invariant
            1 <= k <= 26,
            count <= k - 1,
            count == stability_count(st.sum as int, v as int, k - 1),
            ss == st.sum * st.sum,
            ss <= 0x1_0000_0000_0000_0000_0000_0000_0000,
            v <= 0x1_0000_0000_0000_0000_0000_0000_0000,
            v == st.variance_spec(),
        decreases 26 - k,
    {
        let f: u128 = (51 - 2 * k) as u128;
        proof {
            assert(f * f * ss <= 2601 * 0x1_0000_0000_0000_0000_0000_0000_0000) by (nonlinear_arith)
                requires
                    f <= 49,
                    ss <= 0x1_0000_0000_0000_0000_0000_0000_0000,
            ;
            assert(f * f <= 2601) by (nonlinear_arith)
                requires
                    f <= 49,
            ;
        }
        let lhs: u128 = f * f * ss;
        if lhs >= 625 * v {
            count = count + 1;
        }
        k = k + 1;
    }
    count
}

fn diversity_score(p: &ProtoTotals) -> (r: u32)
    ensures
        r == diversity_score_spec(*p),
        r <= 25,
{
    let mut used: u32 = 0;
    if p.tcp > 0 {
        used = used + 1;
    }
    if p.udp > 0 {
        used = used + 1;
    }
    if p.dns > 0 {
        used = used + 1;
    }
    if p.https > 0 {
        used = used + 1;
    }
    if p.http > 0 {
        used = used + 1;
    }
    if p.other > 0 {
        used = used + 1;
    }
    (2 * 25 * used + 6) / 12
}

/// Scores network health over a window of `latency.count` frames from the
/// latency and throughput summaries of those frames, the protocol category
/// totals, and the number of findings above low severity in the most recent
/// sessions. With no frames the score is 0 with an explanation.
pub fn compute_health_score(
    latency: &MetricStats,
    bps: &MetricStats,
    protocols: &ProtoTotals,
    non_low_anomalies: u64,
) -> (r: HealthScore)
    requires
        latency.wf(),
        bps.wf(),
    ensures
        latency.count == 0 ==> r.score == 0 && r.latency_score == 0 && r.stability_score == 0
            && r.diversity_score == 0 && r.anomaly_score == 0 && r.details@ == no_data_details(),
        latency.count > 0 ==> {
            &&& r.latency_score == latency_score_spec(latency.count as int, latency.sum as int)
            &&& r.stability_score == stability_score_spec(*bps)
            &&& r.diversity_score == diversity_score_spec(*protocols)
            &&& r.anomaly_score == anomaly_score_spec(non_low_anomalies)
            &&& r.score == r.latency_score + r.stability_score + r.diversity_score
                + r.anomaly_score
            &&& r.details@ == health_details(r.score as int)
        },
        r.score <= 100,
{
    if latency.count == 0 {
        return HealthScore {
            score: 0,
            latency_score: 0,
            stability_score: 0,
            diversity_score: 0,
            anomaly_score: 0,
            details: String::from_str("No data available — start recording to compute health score"),
        };
    }
    let l = latency_score(latency);
    let s = stability_score(bps);
    let d = diversity_score(protocols);
    let a: u32 = if non_low_anomalies >= ANOMALY_SATURATION {
        0
    } else {
        25 - 5 * (non_low_anomalies as u32)
    };
    let total = l + s + d + a;
    let details = if total >= 80 {
        String::from_str("Excellent network health")
    } else if total >= 60 {
        String::from_str("Good network health")
    } else if total >= 40 {
        String::from_str("Fair network health — some issues detected")
    } else {
        String::from_str("Poor network health — significant issues")
    };
    HealthScore {
        score: total,
        latency_score: l,
        stability_score: s,
        diversity_score: d,
        anomaly_score: a,
        details,
    }
}


// ---------------------------------------------------------------- baseline building

/// Number of (hour-of-day, day-of-week) slots.
pub const SLOT_COUNT: usize = 168;
/// Length of a bucket's common-name lists.
pub const COMMON_NAMES: usize = 10;

/// Slot of an hour of day (0-23) and day of week (0-6).
pub open spec fn slot_of(hour: u8, dow: u8) -> int {
    hour as int * 7 + dow as int
}

/// Hour of day (0-23) and day of week (0 = Sunday) of a UTC time given in
/// seconds since 1970-01-01 (a Thursday).
pub open spec fn slot_time_spec(secs: u64) -> (u8, u8) {
    (((secs / 3600) % 24) as u8, (((secs / 86400) + 4) % 7) as u8)
}

pub fn slot_time(secs: u64) -> (r: (u8, u8))
    ensures
        r == slot_time_spec(secs),
        r.0 < 24,
        r.1 < 7,
{
    (((secs / 3600) % 24) as u8, (((secs / 86400) + 4) % 7) as u8)
}

/// Samples of one slot.
pub struct SlotStats {
    pub bps: MetricStats,
    pub flows: MetricStats,
    pub latency: MetricStats,
}

impl SlotStats {
    pub open spec fn wf(&self) -> bool {
        &&& self.bps.wf() && self.flows.wf() && self.latency.wf()
        &&& self.flows.count == self.bps.count && self.latency.count == self.bps.count
    }
}

/// Frame samples of completed sessions grouped by slot.
pub struct BaselineAccumulator {
    pub slots: Vec<SlotStats>,
}

impl BaselineAccumulator {
    pub open spec fn wf(&self) -> bool {
        self.slots@.len() == SLOT_COUNT && forall|i: int| 0 <= i < SLOT_COUNT ==> #[trigger] self.slots@[i].wf()
    }

    pub fn new() -> (r: BaselineAccumulator)
        ensures
            r.wf(),
            forall|i: int| 0 <= i < SLOT_COUNT ==> #[trigger] r.slots@[i].bps.count == 0,
    {
        let mut slots: Vec<SlotStats> = Vec::new();
        let mut i: usize = 0;
        while i < SLOT_COUNT
            invariant
                i <= SLOT_COUNT,
                slots@.len() == i,
                forall|j: int| 0 <= j < i ==> (#[trigger] slots@[j]).wf() && slots@[j].bps.count == 0,
            decreases SLOT_COUNT - i,
        {
            slots.push(SlotStats { bps: MetricStats::empty(), flows: MetricStats::empty(), latency: MetricStats::empty() });
            i = i + 1;
        }
        BaselineAccumulator { slots }
    }

    /// Adds one frame sample to the slot of `hour` and `dow` when all three
    /// values fit the summaries; says whether it did. Other slots stay as
    /// they were.
    pub fn add_frame(&mut self, hour: u8, dow: u8, bps: u64, flows: u64, latency_cms: u64) -> (added: bool)
        requires
            old(self).wf(),
            hour < 24,
            dow < 7,
        ensures
            final(self).wf(),
            added == (bps < SAMPLE_LIMIT && flows < SAMPLE_LIMIT && latency_cms < SAMPLE_LIMIT
                && old(self).slots@[slot_of(hour, dow)].bps.count < COUNT_LIMIT),
            forall|i: int| 0 <= i < SLOT_COUNT && (i != slot_of(hour, dow) || !added) ==> #[trigger] final(self).slots@[i] == old(self).slots@[i],
            added ==> ({
                let o = old(self).slots@[slot_of(hour, dow)];
                let n = final(self).slots@[slot_of(hour, dow)];
                forall|xs: Seq<u64>, ys: Seq<u64>, zs: Seq<u64>|
                    o.bps.summarises(xs) && o.flows.summarises(ys) && o.latency.summarises(zs) ==> n.bps.summarises(xs.push(bps))
                        && n.flows.summarises(ys.push(flows)) && n.latency.summarises(zs.push(latency_cms))
            }),
    {
        let k = (hour as usize) * 7 + (dow as usize);
        if bps >= SAMPLE_LIMIT || flows >= SAMPLE_LIMIT || latency_cms >= SAMPLE_LIMIT || self.slots[k].bps.count >= COUNT_LIMIT {
            return false;
        }
        assert(self.slots@[k as int].wf());
        let old_slot = self.slots.remove(k);
        let mut b = old_slot.bps;
        let mut f = old_slot.flows;
        let mut l = old_slot.latency;
        let ghost ob = b;
        let ghost of = f;
        let ghost ol = l;
        let a1 = b.add(bps);
        let a2 = f.add(flows);
        let a3 = l.add(latency_cms);
        assert(a1 && a2 && a3);
        assert forall|xs: Seq<u64>, ys: Seq<u64>, zs: Seq<u64>|
            ob.summarises(xs) && of.summarises(ys) && ol.summarises(zs) implies b.summarises(xs.push(bps))
                && f.summarises(ys.push(flows)) && l.summarises(zs.push(latency_cms)) by {
            assert(ob.summarises(xs));
            assert(of.summarises(ys));
            assert(ol.summarises(zs));
        }
        self.slots.insert(k, SlotStats { bps: b, flows: f, latency: l });
        true
    }
}


/// Index of the tally of name `n`, or -1.
pub open spec fn tally_index(ts: Seq<(Seq<char>, nat)>, n: Seq<char>) -> int
    decreases ts.len(),
{
    if ts.len() == 0 {
        -1
    } else if ts.last().0 == n {
        ts.len() - 1
    } else {
        tally_index(ts.drop_last(), n)
    }
}

/// Occurrence counts of the names of `ns`, in order of first appearance.
pub open spec fn name_tally(ns: Seq<String>) -> Seq<(Seq<char>, nat)>
    decreases ns.len(),
{
    if ns.len() == 0 {
        Seq::empty()
    } else {
        let ts = name_tally(ns.drop_last());
        let k = tally_index(ts, ns.last()@);
        if k >= 0 {
            ts.update(k, (ts[k].0, ts[k].1 + 1))
        } else {
            ts.push((ns.last()@, 1nat))
        }
    }
}

/// Position of the first greatest count in `ts[i..]`, starting from `best`.
pub open spec fn best_count_from(ts: Seq<(Seq<char>, nat)>, i: int, best: int) -> int
    decreases ts.len() - i,
{
    if i < 0 || i >= ts.len() {
        best
    } else if ts[i].1 > ts[best].1 {
        best_count_from(ts, i + 1, i)
    } else {
        best_count_from(ts, i + 1, best)
    }
}

/// The `k` most frequent names, most frequent first (earlier first among equals).
pub open spec fn ranked(ts: Seq<(Seq<char>, nat)>, k: nat) -> Seq<Seq<char>>
    decreases k,
{
    if k == 0 || ts.len() == 0 {
        Seq::empty()
    } else {
        let m = best_count_from(ts, 1, 0);
        seq![ts[m].0] + ranked(ts.remove(m), (k - 1) as nat)
    }
}

proof fn lemma_tally_index(ts: Seq<(Seq<char>, nat)>, n: Seq<char>)
    ensures
        -1 <= tally_index(ts, n) < ts.len(),
    decreases ts.len(),
{
    if ts.len() > 0 {
        lemma_tally_index(ts.drop_last(), n);
    }
}

proof fn lemma_best_count_bounds(ts: Seq<(Seq<char>, nat)>, i: int, best: int)
    requires
        0 <= best < ts.len(),
        0 <= i,
    ensures
        0 <= best_count_from(ts, i, best) < ts.len(),
    decreases ts.len() - i,
{
    if i < ts.len() {
        if ts[i].1 > ts[best].1 {
            lemma_best_count_bounds(ts, i + 1, i);
        } else {
            lemma_best_count_bounds(ts, i + 1, best);
        }
    }
}

fn find_tally(ts: &Vec<(String, u64)>, n: &String) -> (r: Option<usize>)
    ensures
        match r {
            Some(k) => k < ts@.len() && k as int == tally_index(tally_views(ts@), n@),
            None => tally_index(tally_views(ts@), n@) == -1,
        },
{
    let ghost tv = tally_views(ts@);
    proof {
        lemma_tally_index(tv, n@);
    }
    let mut k = ts.len();
    assert(tv.take(k as int) =~= tv);
    while k > 0 && ts[k - 1].0 != *n
        invariant
            k <= ts@.len(),
            tv == tally_views(ts@),
            tally_index(tv.take(k as int), n@) == tally_index(tv, n@),
        decreases k,
    {
        assert(tv.take(k as int).drop_last() =~= tv.take(k as int - 1));
        k = k - 1;
    }
    if k > 0 {
        assert(tv.take(k as int).drop_last() =~= tv.take(k as int - 1));
        Some(k - 1)
    } else {
        assert(tv.take(0) =~= Seq::<(Seq<char>, nat)>::empty());
        None
    }
}

pub open spec fn tally_views(v: Seq<(String, u64)>) -> Seq<(Seq<char>, nat)> {
    v.map_values(|e: (String, u64)| (e.0@, e.1 as nat))
}

/// The `limit` most frequent names of `names`, most frequent first.
pub fn most_common(names: &Vec<String>, limit: usize) -> (r: Vec<String>)
    ensures
        r@.map_values(|s: String| s@) == ranked(name_tally(names@), limit as nat),
{
    let mut ts: Vec<(String, u64)> = Vec::new();
    let mut i: usize = 0;
    assert(names@.take(0) =~= Seq::<String>::empty());
    while i < names.len()
        invariant
            i <= names@.len(),
            tally_views(ts@) == name_tally(names@.take(i as int)),
            forall|j: int| 0 <= j < ts@.len() ==> #[trigger] ts@[j].1 <= i,
        decreases names@.len() - i,
    {
        let ghost before = tally_views(ts@);
        assert(names@.take(i as int + 1).drop_last() =~= names@.take(i as int));
        assert(names@.take(i as int + 1).last() == names@[i as int]);
        let found = find_tally(&ts, &names[i]);
        match found {
            Some(k) => {
                let (n, c) = ts.remove(k);
                assert(c <= i);
                ts.insert(k, (n, c + 1));
                assert(tally_views(ts@) =~= before.update(k as int, (before[k as int].0, before[k as int].1 + 1)));
            },
            None => {
                ts.push((names[i].clone(), 1));
                assert(tally_views(ts@) =~= before.push((names@[i as int]@, 1nat)));
            },
        }
        assert forall|j: int| 0 <= j < ts@.len() implies #[trigger] ts@[j].1 <= i + 1 by {}
        i = i + 1;
    }
    assert(names@.take(names@.len() as int) =~= names@);
    let ghost whole = tally_views(ts@);
    let mut out: Vec<String> = Vec::new();
    let mut taken: usize = 0;
    assert(out@.map_values(|s: String| s@) + ranked(tally_views(ts@), limit as nat) =~= ranked(whole, limit as nat));
    while taken < limit && ts.len() > 0
        invariant
            taken <= limit,
            out@.map_values(|s: String| s@) + ranked(tally_views(ts@), (limit - taken) as nat) == ranked(whole, limit as nat),
        decreases limit - taken,
    {
        let ghost tv = tally_views(ts@);
        let ghost ov = out@.map_values(|s: String| s@);
        proof {
            lemma_best_count_bounds(tv, 1, 0);
        }
        let mut best: usize = 0;
        let mut j: usize = 1;
        while j < ts.len()
            invariant
                tv == tally_views(ts@),
                1 <= j <= ts@.len(),
                best < j,
                best_count_from(tv, j as int, best as int) == best_count_from(tv, 1, 0),
            decreases ts@.len() - j,
        {
            if ts[j].1 > ts[best].1 {
                best = j;
            }
            j = j + 1;
        }
        let (n, _c) = ts.remove(best);
        out.push(n);
        assert(tally_views(ts@) =~= tv.remove(best as int));
        assert(out@.map_values(|s: String| s@) =~= ov.push(tv[best as int].0));
        let ghost kk = (limit - taken) as nat;
        assert(ranked(tv, kk) == seq![tv[best as int].0] + ranked(tv.remove(best as int), (kk - 1) as nat));
        assert(out@.map_values(|s: String| s@) + ranked(tally_views(ts@), (kk - 1) as nat) =~= ov + ranked(tv, kk));
        taken = taken + 1;
    }
    assert(ranked(tally_views(ts@), (limit - taken) as nat) =~= Seq::<Seq<char>>::empty());
    assert(out@.map_values(|s: String| s@) =~= out@.map_values(|s: String| s@) + Seq::<Seq<char>>::empty());
    out
}


impl BaselineAccumulator {
    /// The baseline bucket of one slot: its statistics, and the most common
    /// process names and destination countries seen in sessions that
    /// started in it.
    pub fn bucket(&self, hour: u8, dow: u8, processes: &Vec<String>, countries: &Vec<String>) -> (r: BaselineBucket)
        requires
            self.wf(),
            hour < 24,
            dow < 7,
        ensures
            r.wf(),
            r.hour_of_day == hour,
            r.day_of_week == dow,
            r.bps == self.slots@[slot_of(hour, dow)].bps,
            r.flows == self.slots@[slot_of(hour, dow)].flows,
            r.latency == self.slots@[slot_of(hour, dow)].latency,
            r.common_processes@.map_values(|s: String| s@) == ranked(name_tally(processes@), COMMON_NAMES as nat),
            r.common_countries@.map_values(|s: String| s@) == ranked(name_tally(countries@), COMMON_NAMES as nat),
    {
        let k = (hour as usize) * 7 + (dow as usize);
        let slot = &self.slots[k];
        assert(slot.wf());
        BaselineBucket {
            hour_of_day: hour,
            day_of_week: dow,
            bps: slot.bps,
            flows: slot.flows,
            latency: slot.latency,
            common_processes: most_common(processes, COMMON_NAMES),
            common_countries: most_common(countries, COMMON_NAMES),
        }
    }
}

} // verus!
