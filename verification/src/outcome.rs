use core::cmp::Ordering;
use vstd::prelude::*;
use vstd::std_specs::cmp::PartialOrdSpecImpl;

verus! {

/// No estimate is further from zero than this.
pub const SCORE_LIMIT: i32 = 15_000_000;

/// What a position is worth to one side: a proven loss or win with its distance in
/// plies, or an estimate.
#[derive(Debug, Copy, Clone, PartialEq, Eq, Structural)]
pub enum EvaluationResult {
    Defeat { in_steps: i32 },
    Victory { in_steps: i32 },
    InBetween { score: i32 },
}

impl EvaluationResult {
    /// The three grades: every loss is under every estimate, every estimate under every win.
    pub open spec fn tier(self) -> int {
        match self {
            EvaluationResult::Defeat { .. } => 0,
            EvaluationResult::InBetween { .. } => 1,
            EvaluationResult::Victory { .. } => 2,
        }
    }

    /// Order within a grade: a later loss, a higher estimate and an earlier win are better.
    pub open spec fn weight(self) -> int {
        match self {
            EvaluationResult::Defeat { in_steps } => in_steps as int,
            EvaluationResult::InBetween { score } => score as int,
            EvaluationResult::Victory { in_steps } => -(in_steps as int),
        }
    }

    /// `self` is strictly worse than `other`.
    pub open spec fn below(self, other: EvaluationResult) -> bool {
        self.tier() < other.tier() || (self.tier() == other.tier() && self.weight()
            < other.weight())
    }

    /// `self` is as good as `other` or better.
    pub open spec fn at_least(self, other: EvaluationResult) -> bool {
        !self.below(other)
    }

    /// The better of two results; the first where they rank equal.
    pub open spec fn better(self, other: EvaluationResult) -> EvaluationResult {
        if self.at_least(other) {
            self
        } else {
            other
        }
    }

    /// How `self` stands to `other` in the order.
    pub open spec fn compare(self, other: EvaluationResult) -> Ordering {
        if self.below(other) {
            Ordering::Less
        } else if other.below(self) {
            Ordering::Greater
        } else {
            Ordering::Equal
        }
    }

    /// The same result seen by the other side.
    pub open spec fn flip(self) -> EvaluationResult {
        match self {
            EvaluationResult::Defeat { in_steps } => EvaluationResult::Victory { in_steps },
            EvaluationResult::Victory { in_steps } => EvaluationResult::Defeat { in_steps },
            EvaluationResult::InBetween { score } => EvaluationResult::InBetween {
                score: (-score) as i32,
            },
        }
    }

    /// The same result seen one ply earlier.
    pub open spec fn later(self) -> EvaluationResult {
        match self {
            EvaluationResult::Defeat { in_steps } => EvaluationResult::Defeat {
                in_steps: (in_steps + 1) as i32,
            },
            EvaluationResult::Victory { in_steps } => EvaluationResult::Victory {
                in_steps: (in_steps + 1) as i32,
            },
            other => other,
        }
    }

    /// An estimate within the limit, or a decided result with a distance that is not
    /// negative.
    pub open spec fn tame(self) -> bool {
        match self {
            EvaluationResult::Defeat { in_steps } => in_steps >= 0,
            EvaluationResult::Victory { in_steps } => in_steps >= 0,
            EvaluationResult::InBetween { score } => -SCORE_LIMIT <= score <= SCORE_LIMIT,
        }
    }

    /// The game is decided.
    pub open spec fn decided(self) -> bool {
        self is Defeat || self is Victory
    }

    /// The estimate can be negated and the distance can grow by one within `i32`.
    pub open spec fn can_flip(self) -> bool {
        self matches EvaluationResult::InBetween { score } ==> score > i32::MIN
    }

    /// The distance can grow by one within `i32`.
    pub open spec fn can_step(self) -> bool {
        match self {
            EvaluationResult::Defeat { in_steps } => in_steps < i32::MAX,
            EvaluationResult::Victory { in_steps } => in_steps < i32::MAX,
            EvaluationResult::InBetween { .. } => true,
        }
    }

    /// The same result seen by the other side.
    pub fn opposite(self) -> (flipped: EvaluationResult)
        requires
            self.can_flip(),
        ensures
            flipped == self.flip(),
    {
        match self {
            EvaluationResult::Defeat { in_steps } => EvaluationResult::Victory { in_steps },
            EvaluationResult::Victory { in_steps } => EvaluationResult::Defeat { in_steps },
            EvaluationResult::InBetween { score } => EvaluationResult::InBetween { score: -score },
        }
    }

    /// The same result seen one ply earlier: a decided result is one step further
    /// away.
    pub fn add_step(self) -> (stepped: EvaluationResult)
        requires
            self.can_step(),
        ensures
            stepped == self.later(),
    {
        match self {
            EvaluationResult::Defeat { in_steps } => EvaluationResult::Defeat {
                in_steps: in_steps + 1,
            },
            EvaluationResult::Victory { in_steps } => EvaluationResult::Victory {
                in_steps: in_steps + 1,
            },
            other => other,
        }
    }

    /// Whether the game is decided.
    pub fn is_end(self) -> (end: bool)
        ensures
            end == self.decided(),
    {
        match self {
            EvaluationResult::Defeat { .. } => true,
            EvaluationResult::Victory { .. } => true,
            EvaluationResult::InBetween { .. } => false,
        }
    }

    /// Of two different results exactly one is below the other, and none is below itself.
    pub proof fn lemma_order_total(self, other: EvaluationResult)
        ensures
            !self.below(self),
            self != other ==> (self.below(other) != other.below(self)),
            self == other ==> !self.below(other) && !other.below(self),
    {
    }

    /// The order is transitive.
    pub proof fn lemma_order_transitive(self, mid: EvaluationResult, top: EvaluationResult)
        requires
            self.below(mid),
            mid.below(top),
        ensures
            self.below(top),
    {
    }

    /// Seen from the other side the order is reversed, and flipping twice changes nothing.
    pub proof fn lemma_flip_reverses(self, other: EvaluationResult)
        requires
            self.can_flip(),
            other.can_flip(),
        ensures
            self.below(other) == other.flip().below(self.flip()),
            self.flip().flip() == self,
            self.flip().can_flip(),
    {
    }
}

impl PartialOrd for EvaluationResult {
    fn partial_cmp(&self, other: &Self) -> (order: Option<Ordering>) {
        let order = match (*self, *other) {
            (
                EvaluationResult::InBetween { score: a },
                EvaluationResult::InBetween { score: b },
            ) => three_way(a, b),
            (
                EvaluationResult::Defeat { in_steps: a },
                EvaluationResult::Defeat { in_steps: b },
            ) => three_way(a, b),
            (
                EvaluationResult::Victory { in_steps: b },
                EvaluationResult::Victory { in_steps: a },
            ) => three_way(a, b),
            (EvaluationResult::Defeat { .. }, _) => Ordering::Less,
            (EvaluationResult::Victory { .. }, _) => Ordering::Greater,
            (_, EvaluationResult::Defeat { .. }) => Ordering::Greater,
            (_, EvaluationResult::Victory { .. }) => Ordering::Less,
        };
        Some(order)
    }
}

impl PartialOrdSpecImpl for EvaluationResult {
    open spec fn obeys_partial_cmp_spec() -> bool {
        true
    }

    open spec fn partial_cmp_spec(&self, other: &Self) -> Option<Ordering> {
        Some(self.compare(*other))
    }
}

/// How `a` stands to `b` among the integers.
fn three_way(a: i32, b: i32) -> (order: Ordering)
    ensures
        order == if a < b {
            Ordering::Less
        } else if a > b {
            Ordering::Greater
        } else {
            Ordering::Equal
        },
{
    if a == b {
        Ordering::Equal
    } else if a < b {
        Ordering::Less
    } else {
        Ordering::Greater
    }
}

} // verus!
