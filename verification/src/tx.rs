//! How an outgoing frame goes out on a bearer: which rules it waits for, which rate
//! it rides, and whether it is coded, bundled or sent as it is.

use vstd::prelude::*;

use crate::rate::{McsDescriptor, RatePolicy};

verus! {

/// What a bearer has for sending frames.
#[derive(Debug, Clone, Copy, PartialEq, Eq, Structural)]
pub struct TxBearer {
    /// A scheduler gates its data frames.
    pub scheduled: bool,
    /// The rate policy, where frames carry their rate.
    pub rate: Option<RatePolicy>,
    /// The parity set for it, where it codes generations.
    pub fec: Option<u16>,
    /// Frames are bundled.
    pub batched: bool,
}

/// How the frame is handed to the radio.
#[derive(Debug, Clone, Copy, PartialEq, Eq, Structural)]
pub enum TxRoute {
    /// In a coded generation with so much parity, which keeps this rate.
    Coded(u16, Option<McsDescriptor>),
    /// In a bundle, at this rate.
    Bundled(Option<McsDescriptor>),
    /// On its own, at this rate.
    At(McsDescriptor),
    /// On its own, at the rate that the driver holds.
    AsIs,
}

/// What happens to one frame.
#[derive(Debug, Clone, Copy, PartialEq, Eq, Structural)]
pub struct TxPlan {
    /// It waits for the scheduler's gate first.
    pub gated: bool,
    /// How it is handed to the radio.
    pub route: TxRoute,
}

impl TxBearer {
    /// The rate that was decided for the frame: none for a robust frame, and none
    /// while a legacy receiver is in range.
    pub open spec fn decided(
        &self,
        robust: bool,
        legacy: bool,
        adaptive: McsDescriptor,
    ) -> Option<McsDescriptor> {
        if robust || legacy {
            None
        } else {
            match self.rate {
                Some(p) => Some(p.selected(adaptive)),
                None => None,
            }
        }
    }

    /// The parity of a coded generation: the planned one, else the one set.
    pub open spec fn parity(&self) -> u16 {
        match self.fec {
            Some(set) => match self.rate {
                Some(p) => match p.parity() {
                    Some(n) => n,
                    None => set,
                },
                None => set,
            },
            None => 0,
        }
    }

    /// The plan asked not to bundle.
    pub open spec fn bundling_forbidden(&self) -> bool {
        match self.rate {
            Some(p) => p.bundle() == Some(0u16),
            None => false,
        }
    }

    /// How the frame is handed to the radio.
    pub open spec fn route(
        &self,
        robust: bool,
        legacy: bool,
        eligible: bool,
        adaptive: McsDescriptor,
    ) -> TxRoute {
        let decided = self.decided(robust, legacy, adaptive);
        if !robust && self.fec is Some && self.parity() > 0 && eligible {
            TxRoute::Coded(self.parity(), decided)
        } else if !robust && self.batched && !self.bundling_forbidden() {
            TxRoute::Bundled(decided)
        } else {
            match decided {
                Some(d) => TxRoute::At(d),
                None => TxRoute::AsIs,
            }
        }
    }

    /// Plans one frame. A robust frame waits for nothing, is neither coded nor
    /// bundled, and carries no decided rate. `eligible` says whether the frame's
    /// kind is worth recovering, and `adaptive` is the rate that suits the signal
    /// last heard.
    pub fn inject_with_intent(
        &self,
        robust: bool,
        legacy: bool,
        eligible: bool,
        adaptive: McsDescriptor,
    ) -> (p: TxPlan)
        ensures
            p == (TxPlan {
                gated: self.scheduled && !robust,
                route: self.route(robust, legacy, eligible, adaptive),
            }),
    {
        let gated: bool = self.scheduled && !robust;
        let decided: Option<McsDescriptor> = if robust || legacy {
            None
        } else {
            match self.rate {
                Some(p) => Some(p.select(adaptive)),
                None => None,
            }
        };
        if !robust {
            if let Some(set) = self.fec {
                let planned: Option<u16> = match self.rate {
                    Some(p) => p.planned_redundancy(),
                    None => None,
                };
                let parity: u16 = match planned {
                    Some(n) => n,
                    None => set,
                };
                if parity > 0 && eligible {
                    return TxPlan { gated, route: TxRoute::Coded(parity, decided) };
                }
            }
        }
        let forbidden: bool = match self.rate {
            Some(p) => match p.planned_amsdu_msdus() {
                Some(n) => n == 0,
                None => false,
            },
            None => false,
        };
        if !robust && !forbidden && self.batched {
            return TxPlan { gated, route: TxRoute::Bundled(decided) };
        }
        match decided {
            Some(d) => TxPlan { gated, route: TxRoute::At(d) },
            None => TxPlan { gated, route: TxRoute::AsIs },
        }
    }

    /// Plans a data frame. While a receiver is in range that decodes nothing but the
    /// basic rate, data goes out robust.
    pub fn inject(&self, legacy: bool, eligible: bool, adaptive: McsDescriptor) -> (p: TxPlan)
        ensures
            p == (TxPlan {
                gated: self.scheduled && !legacy,
                route: self.route(legacy, legacy, eligible, adaptive),
            }),
    {
        self.inject_with_intent(legacy, legacy, eligible, adaptive)
    }
}

// ---------------------------------------------------------------------------
// Bundles
// ---------------------------------------------------------------------------

/// How bundles are made where no plan decides.
#[derive(Debug, Clone, Copy, PartialEq, Eq, Structural)]
pub struct AmsduCfg {
    /// The most frames in a bundle.
    pub max_msdus: usize,
    /// How long a bundle waits for more, in microseconds.
    pub window_us: u64,
}

impl AmsduCfg {
    /// Bundles of at most `max_msdus` frames, and at least one.
    pub fn new(max_msdus: usize, window_us: u64) -> (c: Self)
        ensures
            c == (AmsduCfg {
                max_msdus: if max_msdus == 0 {
                    1
                } else {
                    max_msdus
                },
                window_us,
            }),
    {
        AmsduCfg { max_msdus: if max_msdus == 0 { 1 } else { max_msdus }, window_us }
    }
}

/// The most frames in the next bundle: what the plan says, at least one, else what
/// was configured.
pub fn bundle_cap(cfg: AmsduCfg, planned: Option<u16>) -> (n: usize)
    ensures
        n == (match planned {
            Some(p) => if p == 0 {
                1
            } else {
                p as int
            },
            None => cfg.max_msdus as int,
        }),
{
    match planned {
        Some(p) => if p == 0 {
            1
        } else {
            p as usize
        },
        None => cfg.max_msdus,
    }
}

/// The rate of the last frame among the first `n` that has one.
pub open spec fn last_rate(rates: Seq<Option<McsDescriptor>>, n: int) -> Option<McsDescriptor>
    decreases n,
{
    if n <= 0 {
        None
    } else if rates[n - 1] is Some {
        rates[n - 1]
    } else {
        last_rate(rates, n - 1)
    }
}

/// The rates of a bundle's frames: those without one take that of the last frame
/// that has one. `None` where no frame has a rate, and the driver's rate stands.
pub fn bundle_rates(rates: &Vec<Option<McsDescriptor>>) -> (r: Option<Vec<McsDescriptor>>)
    ensures
        match last_rate(rates@, rates@.len() as int) {
            Some(last) => {
                &&& r is Some
                &&& r->0@ == Seq::new(
                    rates@.len(),
                    |i: int|
                        match rates@[i] {
                            Some(d) => d,
                            None => last,
                        },
                )
            },
            None => r is None,
        },
{
    let mut i: usize = rates.len();
    let mut found: Option<McsDescriptor> = None;
    while i > 0 && found.is_none()
        invariant
            i <= rates.len(),
            found is None ==> last_rate(rates@, rates@.len() as int) == last_rate(
                rates@,
                i as int,
            ),
            found is Some ==> found == last_rate(rates@, rates@.len() as int),
        decreases i,
    {
        found = rates[i - 1];
        i = i - 1;
    }
    let last: McsDescriptor = match found {
        None => {
            return None;
        },
        Some(d) => d,
    };
    let mut out: Vec<McsDescriptor> = Vec::new();
    let mut j: usize = 0;
    while j < rates.len()
        invariant
            j <= rates.len(),
            out.len() == j,
            forall|k: int|
                0 <= k < j ==> #[trigger] out@[k] == (match rates@[k] {
                    Some(d) => d,
                    None => last,
                }),
        decreases rates.len() - j,
    {
        let d: McsDescriptor = match rates[j] {
            Some(d) => d,
            None => last,
        };
        out.push(d);
        j = j + 1;
    }
    assert(out@ =~= Seq::new(
        rates@.len(),
        |i: int|
            match rates@[i] {
                Some(d) => d,
                None => last,
            },
    ));
    Some(out)
}

/// A bundle in the making.
pub struct Batch {
    /// The rates of its frames, in order.
    pub rates: Vec<Option<McsDescriptor>>,
    /// The most frames that it takes.
    pub cap: usize,
}

impl Batch {
    /// There is a frame, and no more than the cap allows.
    pub open spec fn wf(&self) -> bool {
        0 < self.rates@.len() <= self.cap
    }

    /// Opens a bundle with its first frame. The plan sizes it, bundle by bundle.
    pub fn open(cfg: AmsduCfg, planned: Option<u16>, first: Option<McsDescriptor>) -> (b: Self)
        requires
            cfg.max_msdus > 0,
        ensures
            b.wf(),
            b.rates@ == seq![first],
            b.cap == (match planned {
                Some(p) => if p == 0 {
                    1
                } else {
                    p as int
                },
                None => cfg.max_msdus as int,
            }),
    {
        let mut rates: Vec<Option<McsDescriptor>> = Vec::new();
        rates.push(first);
        assert(rates@ =~= seq![first]);
        Batch { rates, cap: bundle_cap(cfg, planned) }
    }

    /// Does the bundle wait for another frame? It goes out at once when it is full.
    pub fn wants_more(&self) -> (r: bool)
        ensures
            r == (self.rates@.len() < self.cap),
    {
        self.rates.len() < self.cap
    }

    /// Adds a frame to a bundle that is not full.
    pub fn submit(&mut self, rate: Option<McsDescriptor>)
        requires
            old(self).wf(),
            old(self).rates@.len() < old(self).cap,
        ensures
            final(self).wf(),
            final(self).cap == old(self).cap,
            final(self).rates@ == old(self).rates@.push(rate),
    {
        self.rates.push(rate);
    }
}

impl TxBearer {
    /// The bearer of a configuration: it bundles where bundling is configured and
    /// coding is not.
    pub open spec fn as_configured(
        scheduled: bool,
        rate: Option<RatePolicy>,
        fec: Option<u16>,
        amsdu: Option<AmsduCfg>,
    ) -> TxBearer {
        TxBearer { scheduled, rate, fec, batched: amsdu is Some && fec is None }
    }

    /// What a bearer gets of a medium's configuration: a bearer that codes does not
    /// bundle, because a generation goes out back to back already. The second part
    /// says that bundling was configured and is ignored.
    pub fn configured(
        scheduled: bool,
        rate: Option<RatePolicy>,
        fec: Option<u16>,
        amsdu: Option<AmsduCfg>,
    ) -> (r: (TxBearer, bool))
        ensures
            r.0 == TxBearer::as_configured(scheduled, rate, fec, amsdu),
            r.1 == (amsdu is Some && fec is Some),
    {
        let bundles: bool = amsdu.is_some();
        let codes: bool = fec.is_some();
        (TxBearer { scheduled, rate, fec, batched: bundles && !codes }, bundles && codes)
    }
}

// ---------------------------------------------------------------------------
// Laws
// ---------------------------------------------------------------------------

/// A robust frame waits for no slot, is neither coded nor bundled, and rides the
/// rate that the driver takes for robust frames, whatever is configured or planned.
pub proof fn law_robust_frames_go_out_at_once(
    b: TxBearer,
    legacy: bool,
    eligible: bool,
    adaptive: McsDescriptor,
)
    ensures
        b.route(true, legacy, eligible, adaptive) == TxRoute::AsIs,
{
}

/// While a legacy receiver is in range no frame rides a decided rate, coded or not.
pub proof fn law_a_legacy_receiver_outranks_the_plan(
    b: TxBearer,
    robust: bool,
    eligible: bool,
    adaptive: McsDescriptor,
)
    ensures
        b.decided(robust, true, adaptive) is None,
        b.route(robust, true, eligible, adaptive) !is At,
        b.route(robust, true, eligible, adaptive) matches TxRoute::Coded(_, m) ==> m is None,
        b.route(robust, true, eligible, adaptive) matches TxRoute::Bundled(m) ==> m is None,
{
}

/// A planned rate reaches the air on every data path: alone, bundled or coded.
pub proof fn law_a_planned_rate_reaches_the_air(
    b: TxBearer,
    p: RatePolicy,
    d: McsDescriptor,
    eligible: bool,
    adaptive: McsDescriptor,
)
    requires
        b.rate == Some(p),
        p.planned is Some,
        p.planned->0.mcs == Some(d),
    ensures
        match b.route(false, false, eligible, adaptive) {
            TxRoute::Coded(_, m) => m == Some(d),
            TxRoute::Bundled(m) => m == Some(d),
            TxRoute::At(m) => m == d,
            TxRoute::AsIs => false,
        },
{
}

/// A planned parity is the one that goes out; without a plan the one set is.
pub proof fn law_the_planned_parity_wins(
    b: TxBearer,
    p: RatePolicy,
    n: u16,
    adaptive: McsDescriptor,
)
    requires
        b.fec is Some,
        b.rate == Some(p),
        p.parity() == Some(n),
    ensures
        n > 0 ==> b.route(false, false, true, adaptive) == TxRoute::Coded(
            n,
            b.decided(false, false, adaptive),
        ),
        n == 0 ==> b.route(false, false, true, adaptive) !is Coded,
{
}

/// A bearer that codes never bundles, however the medium is configured: a frame of
/// it is coded or goes out on its own.
pub proof fn law_coding_excludes_bundling(
    scheduled: bool,
    rate: Option<RatePolicy>,
    fec: u16,
    amsdu: Option<AmsduCfg>,
    robust: bool,
    legacy: bool,
    eligible: bool,
    adaptive: McsDescriptor,
)
    ensures
        TxBearer::as_configured(scheduled, rate, Some(fec), amsdu).route(
            robust,
            legacy,
            eligible,
            adaptive,
        ) !is Bundled,
{
}

/// A frame that is not worth recovering is never coded.
pub proof fn law_ineligible_frames_bypass_coding(
    b: TxBearer,
    robust: bool,
    legacy: bool,
    adaptive: McsDescriptor,
)
    ensures
        b.route(robust, legacy, false, adaptive) !is Coded,
{
}

/// A plan of zero frames per bundle sends every frame on its own.
pub proof fn law_a_plan_can_forbid_bundling(
    b: TxBearer,
    p: RatePolicy,
    robust: bool,
    legacy: bool,
    eligible: bool,
    adaptive: McsDescriptor,
)
    requires
        b.rate == Some(p),
        p.bundle() == Some(0u16),
    ensures
        b.route(robust, legacy, eligible, adaptive) !is Bundled,
{
}

/// The rate that is decided for a data frame: the planned one, else the fixed one of the
/// policy, else the one that suits the signal; none without a policy.
pub proof fn law_the_decided_rate(b: TxBearer, p: RatePolicy, adaptive: McsDescriptor)
    ensures
        b.rate is None ==> b.decided(false, false, adaptive) is None,
        b.rate == Some(p) ==> b.decided(false, false, adaptive) == Some(
            if p.planned is Some && p.planned->0.mcs is Some {
                p.planned->0.mcs->0
            } else if p.policy is Fixed {
                p.policy->Fixed_0
            } else {
                adaptive
            },
        ),
        b.decided(true, false, adaptive) is None,
        b.decided(true, true, adaptive) is None,
        b.decided(false, true, adaptive) is None,
{
}

/// A frame is coded exactly where it is not robust, the bearer codes, the frame's kind is
/// worth recovering and the parity, planned or else set, is not zero; it then goes out
/// with that parity and its decided rate.
pub proof fn law_which_frames_are_coded(
    b: TxBearer,
    robust: bool,
    legacy: bool,
    eligible: bool,
    adaptive: McsDescriptor,
    set: u16,
)
    requires
        b.fec == Some(set),
    ensures
        ({
            let parity = if b.rate is Some && b.rate->0.planned is Some
                && b.rate->0.planned->0.link_fec_redundancy is Some {
                b.rate->0.planned->0.link_fec_redundancy->0
            } else {
                set
            };
            let route = b.route(robust, legacy, eligible, adaptive);
            &&& route is Coded <==> !robust && eligible && parity > 0
            &&& route matches TxRoute::Coded(n, m) ==> n == parity && m == b.decided(
                robust,
                legacy,
                adaptive,
            )
        }),
{
}

/// A frame that is not coded is bundled exactly where it is not robust, the bearer
/// bundles and no plan asks for zero frames per bundle; else it goes out on its own. In
/// either case it keeps its decided rate.
pub proof fn law_which_frames_are_bundled(
    b: TxBearer,
    robust: bool,
    legacy: bool,
    eligible: bool,
    adaptive: McsDescriptor,
)
    ensures
        ({
            let route = b.route(robust, legacy, eligible, adaptive);
            let none = b.rate is Some && b.rate->0.planned is Some
                && b.rate->0.planned->0.amsdu_msdus == Some(0u16);
            let decided = b.decided(robust, legacy, adaptive);
            &&& b.fec is None ==> !(route is Coded)
            &&& route is Bundled <==> !(route is Coded) && !robust && b.batched && !none
            &&& route matches TxRoute::Bundled(m) ==> m == decided
            &&& route matches TxRoute::At(m) ==> decided == Some(m)
            &&& route is AsIs ==> decided is None
        }),
{
}

/// A bundle's frames without a rate take that of the last frame that has one.
pub proof fn law_the_last_rate_of_a_bundle(rates: Seq<Option<McsDescriptor>>, n: int, i: int)
    requires
        0 <= n <= rates.len(),
    ensures
        (forall|j: int| 0 <= j < n ==> (#[trigger] rates[j]) is None) ==> last_rate(rates, n) is None,
        0 <= i < n && rates[i] is Some && (forall|j: int|
            i < j < n ==> (#[trigger] rates[j]) is None) ==> last_rate(rates, n) == rates[i],
    decreases n,
{
    if n > 0 {
        law_the_last_rate_of_a_bundle(rates, n - 1, i);
    }
}

/// A bearer is configured as it was asked to be, and bundles where it was asked to and
/// does not code.
pub proof fn law_a_bearer_is_configured_as_asked(
    scheduled: bool,
    rate: Option<RatePolicy>,
    fec: Option<u16>,
    amsdu: Option<AmsduCfg>,
)
    ensures
        ({
            let b = TxBearer::as_configured(scheduled, rate, fec, amsdu);
            &&& b.scheduled == scheduled
            &&& b.rate == rate
            &&& b.fec == fec
            &&& b.batched <==> amsdu is Some && fec is None
        }),
{
}

/// A bundle holds a frame, and no more than its cap.
pub proof fn law_the_form_of_a_bundle(b: Batch)
    ensures
        b.wf() <==> 1 <= b.rates@.len() <= b.cap,
{
}

} // verus!
