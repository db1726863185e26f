//! The steps of a session in the desktop front end, and which step each
//! action leads to.
use vstd::prelude::*;

verus! {

/// A step of the session.
#[derive(Clone, Copy, Debug, PartialEq, Eq, Structural)]
pub enum Step {
    Config,
    HistoryImport,
    GlobalReq,
    MapSelect,
    CharSelect,
    RoundReq,
    Analyzing,
    ResultDisplay,
    WaitingEnd,
    AskNext,
    SaveHistory,
    ErrorExit,
}

/// What happens: a person's action, or the end of an analysis.
#[derive(Clone, Copy, Debug, PartialEq, Eq, Structural)]
pub enum Event {
    /// Keep the saved settings.
    KeepConfig,
    /// Confirm the settings form.
    ApplyConfig,
    /// Start a new session (also what an empty history list leads to).
    StartFresh,
    /// Continue a saved session.
    ImportSession,
    /// Confirm the text or the choice of the current step.
    Confirm,
    /// The analysis ended with plans.
    PlansReady,
    /// The analysis asks the model again.
    RetryingModel,
    /// The analysis ended without plans: interrupted, failed, or given up.
    AnalysisFailed,
    /// The round of the confirmed plan is over.
    RoundOver,
    /// Play another round.
    NextRound,
    /// Stop playing.
    Finish,
    /// Make the failed call again.
    RetryCall,
    /// Choose map and survivors again.
    ChooseAgain,
    /// Go to saving the session.
    SaveSession,
    /// Leave.
    Exit,
    /// The window is being closed.
    CloseRequested,
    /// Open the naming of the saved session.
    OpenSaveDialog,
    /// Close the naming without saving.
    CancelSave,
    /// Leave without saving.
    DiscardSession,
    /// The session was saved under the typed name: leave.
    Saved,
    /// Saving under the typed name failed: the step stays and shows why.
    SaveFailed,
}

/// What the step does not show: the facts an action depends on.
#[derive(Clone, Copy, Debug, PartialEq, Eq, Structural)]
pub struct Facts {
    /// A map is chosen.
    pub map_chosen: bool,
    /// How many survivors are chosen.
    pub cast: usize,
    /// How many rounds the session holds.
    pub rounds: usize,
    /// The naming of the saved session is open.
    pub save_dialog: bool,
    /// The analysis ended in an error of the call itself: the service failed,
    /// the stream broke off, or the call was interrupted.
    pub call_failed: bool,
    /// The model was given up on after its replies kept failing the format.
    pub model_unsuited: bool,
}

/// Where an action leads.
#[derive(Clone, Copy, Debug, PartialEq, Eq, Structural)]
pub enum Outcome {
    /// Nothing changes.
    Stay,
    /// To the given step.
    GoTo(Step),
    /// The program ends.
    Quit,
}

/// The transitions of the desktop front end.
pub open spec fn transition(step: Step, event: Event, f: Facts) -> Outcome {
    if event == Event::CloseRequested {
        if f.rounds > 0 && !f.save_dialog {
            Outcome::GoTo(Step::SaveHistory)
        } else {
            Outcome::Quit
        }
    } else {
        match (step, event) {
            (Step::Config, Event::KeepConfig) => Outcome::GoTo(Step::HistoryImport),
            (Step::Config, Event::ApplyConfig) => Outcome::GoTo(Step::HistoryImport),
            (Step::HistoryImport, Event::StartFresh) => Outcome::GoTo(Step::GlobalReq),
            (Step::HistoryImport, Event::ImportSession) => Outcome::GoTo(Step::MapSelect),
            (Step::GlobalReq, Event::Confirm) => Outcome::GoTo(Step::MapSelect),
            (Step::MapSelect, Event::Confirm) => if f.map_chosen {
                Outcome::GoTo(Step::CharSelect)
            } else {
                Outcome::Stay
            },
            (Step::CharSelect, Event::Confirm) => if f.cast == 4 {
                Outcome::GoTo(Step::RoundReq)
            } else {
                Outcome::Stay
            },
            (Step::RoundReq, Event::Confirm) => Outcome::GoTo(Step::Analyzing),
            (Step::Analyzing, Event::PlansReady) => Outcome::GoTo(Step::ResultDisplay),
            (Step::Analyzing, Event::RetryingModel) => Outcome::GoTo(Step::Analyzing),
            (Step::Analyzing, Event::AnalysisFailed) => Outcome::GoTo(Step::ErrorExit),
            (Step::ResultDisplay, Event::Confirm) => Outcome::GoTo(Step::WaitingEnd),
            (Step::WaitingEnd, Event::RoundOver) => Outcome::GoTo(Step::AskNext),
            (Step::AskNext, Event::NextRound) => Outcome::GoTo(Step::MapSelect),
            (Step::AskNext, Event::Finish) => Outcome::GoTo(Step::SaveHistory),
            (Step::ErrorExit, Event::RetryCall) => if f.call_failed && !f.model_unsuited {
                Outcome::GoTo(Step::Analyzing)
            } else {
                Outcome::Stay
            },
            (Step::ErrorExit, Event::ChooseAgain) => if f.call_failed && !f.model_unsuited {
                Outcome::GoTo(Step::MapSelect)
            } else {
                Outcome::Stay
            },
            (Step::ErrorExit, Event::SaveSession) => if f.rounds > 0 {
                Outcome::GoTo(Step::SaveHistory)
            } else {
                Outcome::Stay
            },
            (Step::ErrorExit, Event::Exit) => if f.rounds > 0 {
                Outcome::GoTo(Step::SaveHistory)
            } else {
                Outcome::Quit
            },
            (Step::SaveHistory, Event::DiscardSession) => Outcome::Quit,
            (Step::SaveHistory, Event::Saved) => Outcome::Quit,
            (Step::SaveHistory, Event::SaveFailed) => Outcome::Stay,
            _ => Outcome::Stay,
        }
    }
}

/// Where an action leads from a step.
pub fn next_step(step: Step, event: Event, f: Facts) -> (r: Outcome)
    ensures
        r == transition(step, event, f),
{
    if event == Event::CloseRequested {
        return if f.rounds > 0 && !f.save_dialog {
            Outcome::GoTo(Step::SaveHistory)
        } else {
            Outcome::Quit
        };
    }
    match (step, event) {
        (Step::Config, Event::KeepConfig) => Outcome::GoTo(Step::HistoryImport),
        (Step::Config, Event::ApplyConfig) => Outcome::GoTo(Step::HistoryImport),
        (Step::HistoryImport, Event::StartFresh) => Outcome::GoTo(Step::GlobalReq),
        (Step::HistoryImport, Event::ImportSession) => Outcome::GoTo(Step::MapSelect),
        (Step::GlobalReq, Event::Confirm) => Outcome::GoTo(Step::MapSelect),
        (Step::MapSelect, Event::Confirm) => if f.map_chosen {
            Outcome::GoTo(Step::CharSelect)
        } else {
            Outcome::Stay
        },
        (Step::CharSelect, Event::Confirm) => if f.cast == 4 {
            Outcome::GoTo(Step::RoundReq)
        } else {
            Outcome::Stay
        },
        (Step::RoundReq, Event::Confirm) => Outcome::GoTo(Step::Analyzing),
        (Step::Analyzing, Event::PlansReady) => Outcome::GoTo(Step::ResultDisplay),
        (Step::Analyzing, Event::RetryingModel) => Outcome::GoTo(Step::Analyzing),
        (Step::Analyzing, Event::AnalysisFailed) => Outcome::GoTo(Step::ErrorExit),
        (Step::ResultDisplay, Event::Confirm) => Outcome::GoTo(Step::WaitingEnd),
        (Step::WaitingEnd, Event::RoundOver) => Outcome::GoTo(Step::AskNext),
        (Step::AskNext, Event::NextRound) => Outcome::GoTo(Step::MapSelect),
        (Step::AskNext, Event::Finish) => Outcome::GoTo(Step::SaveHistory),
        (Step::ErrorExit, Event::RetryCall) => if f.call_failed && !f.model_unsuited {
            Outcome::GoTo(Step::Analyzing)
        } else {
            Outcome::Stay
        },
        (Step::ErrorExit, Event::ChooseAgain) => if f.call_failed && !f.model_unsuited {
            Outcome::GoTo(Step::MapSelect)
        } else {
            Outcome::Stay
        },
        (Step::ErrorExit, Event::SaveSession) => if f.rounds > 0 {
            Outcome::GoTo(Step::SaveHistory)
        } else {
            Outcome::Stay
        },
        (Step::ErrorExit, Event::Exit) => if f.rounds > 0 {
            Outcome::GoTo(Step::SaveHistory)
        } else {
            Outcome::Quit
        },
        (Step::SaveHistory, Event::DiscardSession) => Outcome::Quit,
        (Step::SaveHistory, Event::Saved) => Outcome::Quit,
        (Step::SaveHistory, Event::SaveFailed) => Outcome::Stay,
        _ => Outcome::Stay,
    }
}

/// Whether the save step ends the program on its own: it does when it is
/// shown with the naming open for a session without rounds.
pub fn save_step_quits(f: Facts) -> (r: bool)
    ensures
        r == (f.rounds == 0 && f.save_dialog),
{
    f.rounds == 0 && f.save_dialog
}

/// The plan shown after paging back: the previous one, if any.
pub fn plan_back(current: usize) -> (r: usize)
    ensures
        r == if current > 0 {
            current - 1
        } else {
            current as int
        },
{
    if current > 0 {
        current - 1
    } else {
        current
    }
}

/// The plan shown after paging forward: the next one, if any.
pub fn plan_forward(current: usize, plans: usize) -> (r: usize)
    ensures
        r == if current + 1 < plans {
            current + 1
        } else {
            current as int
        },
{
    if current < plans && current + 1 < plans {
        current + 1
    } else {
        current
    }
}

/// The survivor page after paging back: one of three pages.
pub fn page_back(page: usize) -> (r: usize)
    ensures
        r == if page > 0 {
            page - 1
        } else {
            page as int
        },
{
    if page > 0 {
        page - 1
    } else {
        page
    }
}

/// The survivor page after paging forward: one of three pages.
pub fn page_forward(page: usize) -> (r: usize)
    ensures
        r == if page < 2 {
            page + 1
        } else {
            page as int
        },
{
    if page < 2 {
        page + 1
    } else {
        page
    }
}

// ================================================================= laws

/// An analysis starts only from the round's requirements, from a failed
/// call made again, or from a retry of the model; a round ends (and is
/// recorded) only from the step that waits for the confirmed plan's round;
/// a session with rounds never ends without passing the save step; and a
/// failed save does not end the program.
pub proof fn lemma_flow_guards(step: Step, event: Event, f: Facts)
    ensures
        transition(step, event, f) == Outcome::GoTo(Step::Analyzing) ==> (step == Step::RoundReq
            && event == Event::Confirm) || (step == Step::ErrorExit && event == Event::RetryCall
            && f.call_failed && !f.model_unsuited) || (step == Step::Analyzing && event
            == Event::RetryingModel),
        transition(step, event, f) == Outcome::GoTo(Step::AskNext) ==> step == Step::WaitingEnd
            && event == Event::RoundOver,
        transition(step, event, f) == Outcome::GoTo(Step::RoundReq) ==> f.cast == 4,
        transition(step, event, f) == Outcome::GoTo(Step::CharSelect) ==> f.map_chosen,
        f.rounds > 0 && step != Step::SaveHistory && !f.save_dialog ==> transition(step, event, f)
            != Outcome::Quit,
        event == Event::SaveFailed ==> transition(step, event, f) != Outcome::Quit,
{
}

} // verus!
