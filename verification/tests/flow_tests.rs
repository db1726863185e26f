use idv_asas::flow::{
    next_step, page_back, page_forward, plan_back, plan_forward, save_step_quits, Event, Facts,
    Outcome, Step,
};

fn facts() -> Facts {
    Facts {
        map_chosen: false,
        cast: 0,
        rounds: 0,
        save_dialog: false,
        call_failed: false,
        model_unsuited: false,
    }
}

#[test]
fn config_leads_to_history_import() {
    assert_eq!(
        next_step(Step::Config, Event::KeepConfig, facts()),
        Outcome::GoTo(Step::HistoryImport)
    );
    assert_eq!(
        next_step(Step::Config, Event::ApplyConfig, facts()),
        Outcome::GoTo(Step::HistoryImport)
    );
}

#[test]
fn history_import_branches() {
    assert_eq!(
        next_step(Step::HistoryImport, Event::StartFresh, facts()),
        Outcome::GoTo(Step::GlobalReq)
    );
    assert_eq!(
        next_step(Step::HistoryImport, Event::ImportSession, facts()),
        Outcome::GoTo(Step::MapSelect)
    );
}

#[test]
fn map_select_needs_a_map() {
    assert_eq!(next_step(Step::MapSelect, Event::Confirm, facts()), Outcome::Stay);
    let f = Facts { map_chosen: true, ..facts() };
    assert_eq!(next_step(Step::MapSelect, Event::Confirm, f), Outcome::GoTo(Step::CharSelect));
}

#[test]
fn char_select_needs_four_survivors() {
    for cast in [0usize, 1, 2, 3, 5] {
        let f = Facts { cast, ..facts() };
        assert_eq!(next_step(Step::CharSelect, Event::Confirm, f), Outcome::Stay);
    }
    let f = Facts { cast: 4, ..facts() };
    assert_eq!(next_step(Step::CharSelect, Event::Confirm, f), Outcome::GoTo(Step::RoundReq));
}

#[test]
fn a_round_runs_through_its_steps() {
    let f = Facts { map_chosen: true, cast: 4, ..facts() };
    assert_eq!(next_step(Step::GlobalReq, Event::Confirm, f), Outcome::GoTo(Step::MapSelect));
    assert_eq!(next_step(Step::RoundReq, Event::Confirm, f), Outcome::GoTo(Step::Analyzing));
    assert_eq!(
        next_step(Step::Analyzing, Event::PlansReady, f),
        Outcome::GoTo(Step::ResultDisplay)
    );
    assert_eq!(
        next_step(Step::Analyzing, Event::RetryingModel, f),
        Outcome::GoTo(Step::Analyzing)
    );
    assert_eq!(
        next_step(Step::Analyzing, Event::AnalysisFailed, f),
        Outcome::GoTo(Step::ErrorExit)
    );
    assert_eq!(
        next_step(Step::ResultDisplay, Event::Confirm, f),
        Outcome::GoTo(Step::WaitingEnd)
    );
    assert_eq!(next_step(Step::WaitingEnd, Event::RoundOver, f), Outcome::GoTo(Step::AskNext));
    assert_eq!(next_step(Step::AskNext, Event::NextRound, f), Outcome::GoTo(Step::MapSelect));
    assert_eq!(next_step(Step::AskNext, Event::Finish, f), Outcome::GoTo(Step::SaveHistory));
}

#[test]
fn error_exit_offers_retry_only_for_failed_calls() {
    let failed = Facts { call_failed: true, ..facts() };
    assert_eq!(
        next_step(Step::ErrorExit, Event::RetryCall, failed),
        Outcome::GoTo(Step::Analyzing)
    );
    assert_eq!(
        next_step(Step::ErrorExit, Event::ChooseAgain, failed),
        Outcome::GoTo(Step::MapSelect)
    );
    let unsuited = Facts { call_failed: true, model_unsuited: true, ..facts() };
    assert_eq!(next_step(Step::ErrorExit, Event::RetryCall, unsuited), Outcome::Stay);
    assert_eq!(next_step(Step::ErrorExit, Event::ChooseAgain, unsuited), Outcome::Stay);
    assert_eq!(next_step(Step::ErrorExit, Event::RetryCall, facts()), Outcome::Stay);
}

#[test]
fn error_exit_saves_only_sessions_with_rounds() {
    assert_eq!(next_step(Step::ErrorExit, Event::Exit, facts()), Outcome::Quit);
    assert_eq!(next_step(Step::ErrorExit, Event::SaveSession, facts()), Outcome::Stay);
    let played = Facts { rounds: 2, ..facts() };
    assert_eq!(
        next_step(Step::ErrorExit, Event::Exit, played),
        Outcome::GoTo(Step::SaveHistory)
    );
    assert_eq!(
        next_step(Step::ErrorExit, Event::SaveSession, played),
        Outcome::GoTo(Step::SaveHistory)
    );
}

#[test]
fn closing_the_window_asks_to_save_a_played_session() {
    let played = Facts { rounds: 1, ..facts() };
    assert_eq!(
        next_step(Step::MapSelect, Event::CloseRequested, played),
        Outcome::GoTo(Step::SaveHistory)
    );
    assert_eq!(next_step(Step::MapSelect, Event::CloseRequested, facts()), Outcome::Quit);
    let naming = Facts { rounds: 1, save_dialog: true, ..facts() };
    assert_eq!(next_step(Step::SaveHistory, Event::CloseRequested, naming), Outcome::Quit);
}

#[test]
fn save_step_ends_the_program() {
    let played = Facts { rounds: 1, save_dialog: true, ..facts() };
    assert_eq!(next_step(Step::SaveHistory, Event::DiscardSession, played), Outcome::Quit);
    assert_eq!(next_step(Step::SaveHistory, Event::Saved, played), Outcome::Quit);
    assert_eq!(next_step(Step::SaveHistory, Event::SaveFailed, played), Outcome::Stay);
    assert_eq!(next_step(Step::SaveHistory, Event::OpenSaveDialog, played), Outcome::Stay);
    assert!(save_step_quits(Facts { save_dialog: true, ..facts() }));
    assert!(!save_step_quits(played));
    assert!(!save_step_quits(facts()));
}

#[test]
fn unrelated_events_change_nothing() {
    assert_eq!(next_step(Step::Config, Event::Confirm, facts()), Outcome::Stay);
    assert_eq!(next_step(Step::WaitingEnd, Event::Confirm, facts()), Outcome::Stay);
    assert_eq!(next_step(Step::Analyzing, Event::Confirm, facts()), Outcome::Stay);
}

#[test]
fn paging_plans_stops_at_the_ends() {
    assert_eq!(plan_back(0), 0);
    assert_eq!(plan_back(2), 1);
    assert_eq!(plan_forward(0, 3), 1);
    assert_eq!(plan_forward(2, 3), 2);
    assert_eq!(plan_forward(0, 0), 0);
    assert_eq!(plan_forward(0, 1), 0);
}

#[test]
fn paging_survivors_stays_within_three_pages() {
    assert_eq!(page_back(0), 0);
    assert_eq!(page_back(2), 1);
    assert_eq!(page_forward(0), 1);
    assert_eq!(page_forward(1), 2);
    assert_eq!(page_forward(2), 2);
}
