use memguard::engine::switching::{StepEnd, Switching};

fn run(ends: &[StepEnd]) -> Switching {
    ends.iter().fold(Switching::Flushing, |at, end| at.next(*end))
}

#[test]
fn a_switch_flushes_loads_and_adopts() {
    let adopted = StepEnd::Adopted { greenfield: false };
    assert_eq!(run(&[]), Switching::Flushing);
    assert_eq!(run(&[StepEnd::Done]), Switching::Loading);
    assert_eq!(run(&[StepEnd::Done, StepEnd::Done]), Switching::Adopting);
    assert_eq!(run(&[StepEnd::Done, StepEnd::Done, adopted]), Switching::Caching);
    assert_eq!(run(&[StepEnd::Done, StepEnd::Done, adopted, StepEnd::Done]), Switching::Switched);
}

#[test]
fn a_new_project_is_seeded_first() {
    let adopted = StepEnd::Adopted { greenfield: true };
    let seeding = [StepEnd::Done, StepEnd::Done, adopted];
    assert_eq!(run(&seeding), Switching::Seeding);
    assert_eq!(run(&seeding).next(StepEnd::Done), Switching::Caching);
    assert_eq!(run(&seeding).next(StepEnd::Failed), Switching::Abandoned { adopted: true });
}

#[test]
fn a_failing_flush_or_load_keeps_the_old_project() {
    assert_eq!(run(&[StepEnd::Failed]), Switching::Abandoned { adopted: false });
    assert_eq!(run(&[StepEnd::Done, StepEnd::Failed]), Switching::Abandoned { adopted: false });
    let over = Switching::Abandoned { adopted: false };
    assert_eq!(over.next(StepEnd::Done), over);
    assert_eq!(Switching::Switched.next(StepEnd::Failed), Switching::Switched);
}
