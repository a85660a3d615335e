//! The order of steps in which one project is left for another.
use vstd::prelude::*;

verus! {

/// Where a switch of projects stands, and so what is done next: write what is
/// pending for the old project, read the files of the new one, take over what was
/// read together with the new root, write the default files of a new project, write
/// the cache files. An abandoned switch has taken the new project over or not.
#[derive(Debug, Clone, Copy, PartialEq, Eq, Structural)]
pub enum Switching {
    Flushing,
    Loading,
    Adopting,
    Seeding,
    Caching,
    Switched,
    Abandoned { adopted: bool },
}

/// How a step ended; taking over also tells whether the project is a green field.
#[derive(Debug, Clone, Copy, PartialEq, Eq, Structural)]
pub enum StepEnd {
    Done,
    Adopted { greenfield: bool },
    Failed,
}

/// What follows a step.
pub open spec fn switch_step(at: Switching, end: StepEnd) -> Switching {
    match (at, end) {
        (Switching::Switched, _) => at,
        (Switching::Abandoned { .. }, _) => at,
        (_, StepEnd::Failed) => Switching::Abandoned { adopted: has_adopted(at) },
        (Switching::Flushing, _) => Switching::Loading,
        (Switching::Loading, _) => Switching::Adopting,
        (Switching::Adopting, StepEnd::Adopted { greenfield: true }) => Switching::Seeding,
        (Switching::Adopting, _) => Switching::Caching,
        (Switching::Seeding, _) => Switching::Caching,
        (Switching::Caching, _) => Switching::Switched,
    }
}

/// Whether the new project has been taken over.
pub open spec fn has_adopted(at: Switching) -> bool {
    match at {
        Switching::Flushing => false,
        Switching::Loading => false,
        Switching::Adopting => false,
        Switching::Seeding => true,
        Switching::Caching => true,
        Switching::Switched => true,
        Switching::Abandoned { adopted } => adopted,
    }
}

impl Switching {
    fn adopted(self) -> (r: bool)
        ensures
            r == has_adopted(self),
    {
        match self {
            Switching::Flushing => false,
            Switching::Loading => false,
            Switching::Adopting => false,
            Switching::Seeding => true,
            Switching::Caching => true,
            Switching::Switched => true,
            Switching::Abandoned { adopted } => adopted,
        }
    }

    /// The next step, after one that ended as told.
    pub fn next(self, end: StepEnd) -> (r: Switching)
        ensures
            r == switch_step(self, end),
    {
        match (self, end) {
            (Switching::Switched, _) => self,
            (Switching::Abandoned { .. }, _) => self,
            (_, StepEnd::Failed) => Switching::Abandoned { adopted: self.adopted() },
            (Switching::Flushing, _) => Switching::Loading,
            (Switching::Loading, _) => Switching::Adopting,
            (Switching::Adopting, StepEnd::Adopted { greenfield: true }) => Switching::Seeding,
            (Switching::Adopting, _) => Switching::Caching,
            (Switching::Seeding, _) => Switching::Caching,
            (Switching::Caching, _) => Switching::Switched,
        }
    }
}

/// Where a switch stands after its steps ended as told.
pub open spec fn switch_state(ends: Seq<StepEnd>) -> Switching
    decreases ends.len(),
{
    if ends.len() == 0 {
        Switching::Flushing
    } else {
        switch_step(switch_state(ends.drop_last()), ends.last())
    }
}

/// A new project is taken over only after what was pending for the old one has been
/// written and the new one has been read; where either fails, the old one stays.
pub proof fn law_no_switch_before_flush_and_load(ends: Seq<StepEnd>)
    requires
        has_adopted(switch_state(ends)),
    ensures
        ends.len() >= 3,
        !(ends[0] is Failed),
        !(ends[1] is Failed),
{
    lemma_switch_prefix(ends);
}

proof fn lemma_switch_prefix(ends: Seq<StepEnd>)
    ensures
        ({
            let at = switch_state(ends);
            &&& at is Flushing <==> ends.len() == 0
            &&& at is Loading ==> ends.len() == 1 && !(ends[0] is Failed)
            &&& at is Adopting ==> ends.len() == 2 && !(ends[0] is Failed) && !(ends[1] is Failed)
            &&& has_adopted(at) ==> ends.len() >= 3 && !(ends[0] is Failed) && !(ends[1] is Failed)
        }),
    decreases ends.len(),
{
    if ends.len() > 0 {
        lemma_switch_prefix(ends.drop_last());
        let before = ends.drop_last();
        assert forall|i: int| 0 <= i < before.len() implies before[i] == ends[i] by {}
    }
}

/// A switch whose steps all succeed ends with the new project in place.
pub proof fn law_switch_completes(greenfield: bool)
    ensures
        switch_state(
            if greenfield {
                seq![
                    StepEnd::Done,
                    StepEnd::Done,
                    StepEnd::Adopted { greenfield },
                    StepEnd::Done,
                    StepEnd::Done,
                ]
            } else {
                seq![StepEnd::Done, StepEnd::Done, StepEnd::Adopted { greenfield }, StepEnd::Done]
            },
        ) == Switching::Switched,
{
    reveal_with_fuel(switch_state, 6);
    let d = StepEnd::Done;
    let a = StepEnd::Adopted { greenfield };
    let s1 = seq![d];
    let s2 = s1.push(d);
    let s3 = s2.push(a);
    let s4 = s3.push(d);
    let s5 = s4.push(d);
    assert(s1.drop_last() =~= Seq::empty());
    assert(s2.drop_last() =~= s1);
    assert(s3.drop_last() =~= s2);
    assert(s4.drop_last() =~= s3);
    assert(s5.drop_last() =~= s4);
    assert(switch_state(s3) == if greenfield {
        Switching::Seeding
    } else {
        Switching::Caching
    });
    assert(seq![d, d, a, d, d] =~= s5);
    assert(seq![d, d, a, d] =~= s4);
}

/// The steps follow each other: what is pending is written, the new project is read and
/// taken over, its default files are written where it is a green field, and then the
/// cache files. A failed step ends the switch, with the new project in place only where
/// it was taken over; nothing follows the end.
pub proof fn law_steps_follow_each_other(at: Switching, end: StepEnd)
    ensures
        end is Failed && (at is Flushing || at is Loading || at is Adopting) ==> switch_step(at, end)
            == (Switching::Abandoned { adopted: false }),
        end is Failed && (at is Seeding || at is Caching) ==> switch_step(at, end) == (
        Switching::Abandoned { adopted: true }),
        at is Switched || at is Abandoned ==> switch_step(at, end) == at,
        !(end is Failed) && at is Flushing ==> switch_step(at, end) is Loading,
        !(end is Failed) && at is Loading ==> switch_step(at, end) is Adopting,
        at is Adopting && end == (StepEnd::Adopted { greenfield: true }) ==> switch_step(at, end)
            is Seeding,
        at is Adopting && end == (StepEnd::Adopted { greenfield: false }) ==> switch_step(at, end)
            is Caching,
        !(end is Failed) && at is Seeding ==> switch_step(at, end) is Caching,
        !(end is Failed) && at is Caching ==> switch_step(at, end) is Switched,
{
}

} // verus!
