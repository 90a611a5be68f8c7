use quack_nav::explore::{judge_stand, StandCheck};
use quack_nav::homecoming::{judge_ask, newest_saved, AskRun, AskStep, AskVerdict};
use quack_nav::wire::SavedMap;

fn saved(name: &str, saved_at: u64) -> SavedMap {
    SavedMap { name: name.into(), bytes: 0, saved_at }
}

#[test]
fn the_newest_map_is_tried_first() {
    assert_eq!(newest_saved(&vec![]), None);
    assert_eq!(newest_saved(&vec![saved("a", 5), saved("b", 9), saved("c", 7)]), Some(1));
    assert_eq!(newest_saved(&vec![saved("a", 9), saved("b", 9), saved("c", 7)]), Some(1), "the later on a tie");
}

#[test]
fn three_agreeing_asks_adopt() {
    let fits = AskVerdict::Fits { agrees: true };
    let (run, step) = judge_ask(AskRun::fresh(), fits, 3, false);
    assert_eq!(step, AskStep::Agreeing { count: 1 }, "the first answer agrees with nothing");
    let (run, step) = judge_ask(run, fits, 3, false);
    assert_eq!(step, AskStep::Agreeing { count: 2 });
    let (_, step) = judge_ask(run, fits, 3, false);
    assert_eq!(step, AskStep::Adopt);
}

#[test]
fn a_refused_ask_seeds_nothing() {
    let fits = AskVerdict::Fits { agrees: true };
    let (run, _) = judge_ask(AskRun::fresh(), fits, 2, false);
    let (run, step) = judge_ask(run, AskVerdict::NearTie, 2, false);
    assert_eq!(step, AskStep::Refused);
    assert_eq!(run, AskRun { seeded: false, agreed: 0 });
    // The next answer is the first of a new pair, whatever it says.
    let (run, step) = judge_ask(run, fits, 2, false);
    assert_eq!(step, AskStep::Agreeing { count: 1 });
    let (_, step) = judge_ask(run, AskVerdict::Fits { agrees: false }, 2, false);
    assert_eq!(step, AskStep::Agreeing { count: 1 }, "a different answer starts over");
    for refusal in [AskVerdict::AboveBar, AskVerdict::LowOverlap] {
        let (run, step) = judge_ask(AskRun { seeded: true, agreed: 5 }, refusal, 2, false);
        assert_eq!((run, step), (AskRun::fresh(), AskStep::Refused));
    }
}

#[test]
fn a_dry_run_only_says_what_it_would_do() {
    let fits = AskVerdict::Fits { agrees: true };
    let (run, _) = judge_ask(AskRun::fresh(), fits, 2, true);
    let (run, step) = judge_ask(run, fits, 2, true);
    assert_eq!(step, AskStep::WouldAdopt);
    assert_eq!(run, AskRun { seeded: true, agreed: 1 });
    let (_, step) = judge_ask(run, fits, 2, true);
    assert_eq!(step, AskStep::WouldAdopt);
}

#[test]
fn disagreeing_stands_earn_a_panorama_then_end_the_job() {
    let mut distrust = 0;
    let mut steps = Vec::new();
    for _ in 0..5 {
        let (d, check) = judge_stand(distrust, 1, 12);
        distrust = d;
        steps.push(check);
    }
    assert_eq!(
        steps,
        vec![StandCheck::CarryOn, StandCheck::Panorama, StandCheck::CarryOn, StandCheck::CarryOn, StandCheck::Lost]
    );
    assert_eq!(distrust, 6);
}

#[test]
fn a_stand_that_agrees_clears_the_distrust() {
    assert_eq!(judge_stand(4, 5, 12), (0, StandCheck::CarryOn), "12 is not three times 5");
    assert_eq!(judge_stand(4, 0, 9), (4, StandCheck::CarryOn), "too few to disagree, none to agree");
    assert_eq!(judge_stand(4, 0, 10), (5, StandCheck::CarryOn));
    assert_eq!(judge_stand(1, 0, 30), (3, StandCheck::Panorama));
    assert_eq!(judge_stand(7, 0, 0), (7, StandCheck::Lost));
}
