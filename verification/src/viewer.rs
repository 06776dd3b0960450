//! What the viewer decides without drawing anything: which tier of detail
//! shows which decoration, what each stage of raising a world is called,
//! which slice of a world is raised next, and how many plans are working
//! in a town.

use vstd::prelude::*;
use crate::text::{chars_of, eq_chars};

verus! {

/// How much of the map is worth drawing at the current zoom.
#[derive(Clone, Copy, Debug, PartialEq, Eq, Structural)]
pub enum LodLevel {
    /// Wards and towns only.
    Districts,
    /// Buildings with their trim.
    Architecture,
    /// Everything down to a single file's detail.
    FileDetail,
}

impl Default for LodLevel {
    fn default() -> (level: Self)
        ensures
            level == LodLevel::Districts,
    {
        LodLevel::Districts
    }
}

/// The name a tier is shown by.
pub open spec fn lod_name(level: LodLevel) -> Seq<char> {
    match level {
        LodLevel::Districts => "DISTRICTS"@,
        LodLevel::Architecture => "ARCHITECTURE"@,
        LodLevel::FileDetail => "FILE DETAIL"@,
    }
}

/// Where a tier stands, coarsest first.
pub open spec fn lod_rank(level: LodLevel) -> u8 {
    match level {
        LodLevel::Districts => 0,
        LodLevel::Architecture => 1,
        LodLevel::FileDetail => 2,
    }
}

impl LodLevel {
    /// The name a tier is shown by.
    pub fn label(self) -> (r: &'static str)
        ensures
            r@ == lod_name(self),
    {
        match self {
            LodLevel::Districts => "DISTRICTS",
            LodLevel::Architecture => "ARCHITECTURE",
            LodLevel::FileDetail => "FILE DETAIL",
        }
    }
}

/// Where a tier stands, coarsest first.
pub fn rank(level: LodLevel) -> (r: u8)
    ensures
        r == lod_rank(level),
{
    match level {
        LodLevel::Districts => 0,
        LodLevel::Architecture => 1,
        LodLevel::FileDetail => 2,
    }
}

/// Whether `current` is at or beyond `threshold`: a decoration tagged with
/// `threshold` is drawn at `current`.
pub fn reaches(current: LodLevel, threshold: LodLevel) -> (r: bool)
    ensures
        r == (lod_rank(current) >= lod_rank(threshold)),
{
    rank(current) >= rank(threshold)
}

/// What the King is told a world going up is doing.
#[derive(Clone, Copy, Debug, PartialEq, Eq, Structural)]
pub enum RaiseStage {
    Ground,
    Roads,
    Holdings,
    Groves,
    Names,
}

/// The phrase a stage is shown by.
pub open spec fn stage_name(stage: RaiseStage) -> Seq<char> {
    match stage {
        RaiseStage::Ground => "Laying the ground"@,
        RaiseStage::Roads => "Laying the roads"@,
        RaiseStage::Holdings => "Raising the holdings"@,
        RaiseStage::Groves => "Planting the groves"@,
        RaiseStage::Names => "Painting the names"@,
    }
}

impl RaiseStage {
    /// The phrase a stage is shown by.
    pub fn label(self) -> (r: &'static str)
        ensures
            r@ == stage_name(self),
    {
        match self {
            RaiseStage::Ground => "Laying the ground",
            RaiseStage::Roads => "Laying the roads",
            RaiseStage::Holdings => "Raising the holdings",
            RaiseStage::Groves => "Planting the groves",
            RaiseStage::Names => "Painting the names",
        }
    }
}

/// One list of a world, built in order.
#[derive(Clone, Copy, Debug, PartialEq, Eq, Structural)]
pub enum Step {
    /// The sun, the disk and the rock beneath it.
    Base,
    /// Each town's ground and its activity ring.
    Towns,
    /// Each folder's ground and kerb.
    Wards,
    /// The paved squares.
    Plazas,
    /// Every road and path.
    Roads,
    /// Every file, as a building.
    Holdings,
    /// Trees and rim posts.
    Groves,
    /// Folder names painted on the ground.
    Names,
}

/// The stage a step is reported as: the four lists of the ground are one
/// stage, and every other step is its own.
pub open spec fn stage_of(step: Step) -> RaiseStage {
    match step {
        Step::Base | Step::Towns | Step::Wards | Step::Plazas => RaiseStage::Ground,
        Step::Roads => RaiseStage::Roads,
        Step::Holdings => RaiseStage::Holdings,
        Step::Groves => RaiseStage::Groves,
        Step::Names => RaiseStage::Names,
    }
}

impl Step {
    /// What the King is told this step is.
    pub fn stage(self) -> (r: RaiseStage)
        ensures
            r == stage_of(self),
    {
        match self {
            Step::Base | Step::Towns | Step::Wards | Step::Plazas => RaiseStage::Ground,
            Step::Roads => RaiseStage::Roads,
            Step::Holdings => RaiseStage::Holdings,
            Step::Groves => RaiseStage::Groves,
            Step::Names => RaiseStage::Names,
        }
    }
}

/// The most items one slice of a step covers.
pub const SLICE: usize = 48;

/// What one item of a step costs, counted in trees: how much mesh
/// generation it causes.
pub open spec fn weight_of(step: Step) -> nat {
    match step {
        Step::Base => 40,
        Step::Towns => 12,
        Step::Wards => 8,
        Step::Plazas => 2,
        Step::Roads => 6,
        Step::Holdings => 5,
        Step::Groves => 1,
        Step::Names => 8,
    }
}

/// The step at position `i` of the build order.
pub open spec fn build_order(i: int) -> Step {
    if i == 0 {
        Step::Base
    } else if i == 1 {
        Step::Towns
    } else if i == 2 {
        Step::Wards
    } else if i == 3 {
        Step::Plazas
    } else if i == 4 {
        Step::Roads
    } else if i == 5 {
        Step::Holdings
    } else if i == 6 {
        Step::Groves
    } else {
        Step::Names
    }
}

impl Step {
    /// What one item of this step costs, counted in trees.
    pub fn weight(self) -> (w: u64)
        ensures
            w == weight_of(self),
    {
        match self {
            Step::Base => 40,
            Step::Towns => 12,
            Step::Wards => 8,
            Step::Plazas => 2,
            Step::Roads => 6,
            Step::Holdings => 5,
            Step::Groves => 1,
            Step::Names => 8,
        }
    }
}

/// The first step, from position `at` on, with items left: where the
/// cursor, at `offset` into step `at`, goes next. Past the last step it is
/// the number of steps.
pub open spec fn next_open(steps: Seq<(Step, usize)>, at: int, offset: int) -> int
    decreases steps.len() - at,
{
    if at >= steps.len() || offset < steps[at].1 {
        at
    } else {
        next_open(steps, at + 1, 0)
    }
}

/// How many items a slice covers that may afford `affordable`: at least
/// one, and at most [`SLICE`].
pub open spec fn slice_len(affordable: int) -> int {
    if affordable < 1 {
        1
    } else if affordable > SLICE {
        SLICE as int
    } else {
        affordable
    }
}

/// What is left to build of a world, and how far through it the build is:
/// each step with how many items it has, in build order, the step being
/// built, and how far into that step's items the cursor has reached.
#[derive(Clone, Debug)]
pub struct RaisePlan {
    steps: Vec<(Step, usize)>,
    at: usize,
    offset: usize,
}

impl RaisePlan {
    /// Each step with its number of items, in build order.
    pub closed spec fn steps(&self) -> Seq<(Step, usize)> {
        self.steps@
    }

    /// The position of the step being built.
    pub closed spec fn at(&self) -> int {
        self.at as int
    }

    /// How far into that step's items the cursor has reached.
    pub closed spec fn offset(&self) -> int {
        self.offset as int
    }

    /// A plan for a world with `counts[i]` items of the step at position
    /// `i` of the build order.
    pub fn for_counts(counts: &Vec<usize>) -> (p: RaisePlan)
        requires
            counts.len() == 8,
        ensures
            p.steps().len() == 8,
            forall|i: int| 0 <= i < 8 ==> #[trigger] p.steps()[i] == (build_order(i), counts@[i]),
            p.at() == 0,
            p.offset() == 0,
    {
        let order = [
            Step::Base,
            Step::Towns,
            Step::Wards,
            Step::Plazas,
            Step::Roads,
            Step::Holdings,
            Step::Groves,
            Step::Names,
        ];
        let mut steps: Vec<(Step, usize)> = Vec::new();
        let mut i: usize = 0;
        while i < 8
            invariant
                i <= 8,
                counts.len() == 8,
                forall|j: int| 0 <= j < 8 ==> #[trigger] order@[j] == build_order(j),
                steps@.len() == i,
                forall|j: int| 0 <= j < i ==> #[trigger] steps@[j] == (build_order(j), counts@[j]),
            decreases 8 - i,
        {
            steps.push((order[i], counts[i]));
            i = i + 1;
        }
        RaisePlan { steps, at: 0, offset: 0 }
    }

    /// The next slice of work, where the step it falls in may afford
    /// `affordable[i]` items when it is the step at position `i`: the step,
    /// and the first and one past the last item of the slice; or `None`
    /// when the world is complete. Steps with nothing left are walked past,
    /// and a slice holds at least one item, so the build never stalls.
    pub fn take_affordable(&mut self, affordable: &Vec<usize>) -> (r: Option<(Step, usize, usize)>)
        requires
            affordable.len() == old(self).steps().len(),
        ensures
            final(self).steps() == old(self).steps(),
            ({
                let j = next_open(old(self).steps(), old(self).at(), old(self).offset());
                let o = if j == old(self).at() {
                    old(self).offset()
                } else {
                    0
                };
                &&& final(self).at() == j
                &&& if j >= old(self).steps().len() {
                    &&& r is None
                    &&& final(self).offset() == o
                } else {
                    let count = old(self).steps()[j].1 as int;
                    let end = if o + slice_len(affordable@[j] as int) < count {
                        o + slice_len(affordable@[j] as int)
                    } else {
                        count
                    };
                    &&& r == Some((old(self).steps()[j].0, o as usize, end as usize))
                    &&& o < end <= count
                    &&& final(self).offset() == end
                }
            }),
    {
        let ghost steps = self.steps@;
        let ghost at0 = self.at as int;
        let ghost off0 = self.offset as int;
        while self.at < self.steps.len() && self.offset >= self.steps[self.at].1
            invariant
                self.steps@ == steps,
                affordable.len() == steps.len(),
                at0 <= self.at,
                self.at <= steps.len() || self.at as int == at0,
                next_open(steps, self.at as int, self.offset as int) == next_open(steps, at0, off0),
                self.offset == if self.at as int == at0 {
                    off0
                } else {
                    0
                },
            decreases steps.len() - self.at,
        {
            self.at = self.at + 1;
            self.offset = 0;
        }
        if self.at >= self.steps.len() {
            return None;
        }
        let (step, count) = self.steps[self.at];
        let want = affordable[self.at];
        let len: usize = if want < 1 {
            1
        } else if want > SLICE {
            SLICE
        } else {
            want
        };
        let start = self.offset;
        let end = if len < count - start {
            start + len
        } else {
            count
        };
        self.offset = end;
        Some((step, start, end))
    }

    /// The next slice at the pace of a tree a frame's worth: as many items
    /// as forty-eight trees' weight affords.
    pub fn take(&mut self) -> (r: Option<(Step, usize, usize)>)
        requires
            old(self).steps().len() == 8,
            forall|i: int| 0 <= i < 8 ==> (#[trigger] old(self).steps()[i]).0 == build_order(i),
        ensures
            final(self).steps() == old(self).steps(),
            ({
                let j = next_open(old(self).steps(), old(self).at(), old(self).offset());
                let o = if j == old(self).at() {
                    old(self).offset()
                } else {
                    0
                };
                &&& final(self).at() == j
                &&& if j >= 8 {
                    &&& r is None
                    &&& final(self).offset() == o
                } else {
                    let count = old(self).steps()[j].1 as int;
                    let want = (SLICE as nat) / weight_of(build_order(j));
                    let end = if o + slice_len(want as int) < count {
                        o + slice_len(want as int)
                    } else {
                        count
                    };
                    &&& r == Some((old(self).steps()[j].0, o as usize, end as usize))
                    &&& final(self).offset() == end
                }
            }),
    {
        let order = [
            Step::Base,
            Step::Towns,
            Step::Wards,
            Step::Plazas,
            Step::Roads,
            Step::Holdings,
            Step::Groves,
            Step::Names,
        ];
        let mut affordable: Vec<usize> = Vec::new();
        let mut i: usize = 0;
        while i < 8
            invariant
                i <= 8,
                forall|j: int| 0 <= j < 8 ==> #[trigger] order@[j] == build_order(j),
                affordable@.len() == i,
                forall|j: int| 0 <= j < i ==> #[trigger] affordable@[j] == (SLICE as nat) / weight_of(build_order(j)),
            decreases 8 - i,
        {
            let w = order[i].weight();
            affordable.push(SLICE / (w as usize));
            i = i + 1;
        }
        self.take_affordable(&affordable)
    }

    /// Whether everything has been handed out.
    pub fn finished(&self) -> (r: bool)
        ensures
            r == (self.at() >= self.steps().len()),
    {
        self.at >= self.steps.len()
    }

    /// The stage the build is in: that of the step the cursor is on, or,
    /// past the last step, the names, the last thing built.
    pub fn stage(&self) -> (r: RaiseStage)
        ensures
            r == if self.at() < self.steps().len() {
                stage_of(self.steps()[self.at()].0)
            } else {
                RaiseStage::Names
            },
    {
        if self.at < self.steps.len() {
            self.steps[self.at].0.stage()
        } else {
            RaiseStage::Names
        }
    }
}

/// How many plans are working in one town.
#[derive(Debug)]
pub struct TownActivity {
    /// The town's name.
    pub town: String,
    /// Plans working there.
    pub working: usize,
}

/// Which towns have plans working in them.
#[derive(Debug)]
pub struct Activity(pub Vec<TownActivity>);

/// The working count of the first entry for `town`, or zero.
pub open spec fn working_of(entries: Seq<TownActivity>, town: Seq<char>) -> usize
    decreases entries.len(),
{
    if entries.len() == 0 {
        0
    } else if entries[0].town@ == town {
        entries[0].working
    } else {
        working_of(entries.drop_first(), town)
    }
}

impl Activity {
    /// How many plans are working in a named town; zero when no entry names
    /// it, and the first entry's count where several do.
    pub fn working_in(&self, town: &str) -> (n: usize)
        ensures
            n == working_of(self.0@, town@),
    {
        let wanted = chars_of(town);
        let mut i: usize = 0;
        assert(self.0@.skip(0) =~= self.0@);
        while i < self.0.len()
            invariant
                i <= self.0.len(),
                wanted@ == town@,
                working_of(self.0@, town@) == working_of(self.0@.skip(i as int), town@),
            decreases self.0.len() - i,
        {
            assert(self.0@.skip(i as int)[0] == self.0@[i as int]);
            if eq_chars(&chars_of(self.0[i].town.as_str()), &wanted) {
                return self.0[i].working;
            }
            assert(self.0@.skip(i as int).drop_first() =~= self.0@.skip(i + 1));
            i = i + 1;
        }
        0
    }

    /// Whether no town has anything reported at all.
    pub fn is_quiet(&self) -> (r: bool)
        ensures
            r == (self.0.len() == 0),
    {
        self.0.len() == 0
    }
}

impl Default for Activity {
    fn default() -> (a: Self)
        ensures
            a.0.len() == 0,
    {
        Activity(Vec::new())
    }
}

} // verus!
