use vstd::prelude::*;

verus! {

/// The screens of the application, in the order a session goes through them.
#[derive(Debug, Clone, Copy, PartialEq, Eq, Hash, Structural)]
pub enum AppState {
    PreGenMenu,
    GenConfig,
    GenRun,
    GenDone,
    InGame,
}

/// What the user or the generation run reports to the state machine.
#[derive(Debug, Clone, Copy, PartialEq, Eq, Structural)]
pub enum AppEvent {
    /// The menu has been built.
    MenuReady,
    /// The generate button was clicked.
    GenerateClicked,
    /// The staged generation has gone past its last stage.
    GenerationFinished,
    /// The finished progress bar was clicked.
    PlayClicked,
    /// The reset-seed button was clicked.
    ResetSeedClicked,
}

/// The state after `e` in state `s`; events that mean nothing in `s` leave
/// it unchanged.
pub open spec fn next_state(s: AppState, e: AppEvent) -> AppState {
    match (s, e) {
        (AppState::PreGenMenu, AppEvent::MenuReady) => AppState::GenConfig,
        (AppState::GenConfig, AppEvent::GenerateClicked) => AppState::GenRun,
        (AppState::GenRun, AppEvent::GenerationFinished) => AppState::GenDone,
        (AppState::GenDone, AppEvent::PlayClicked) => AppState::InGame,
        (AppState::GenDone, AppEvent::ResetSeedClicked) => AppState::PreGenMenu,
        _ => s,
    }
}

impl AppState {
    /// The state that follows `e`.
    pub fn on_event(self, e: AppEvent) -> (r: AppState)
        ensures
            r == next_state(self, e),
    {
        match (self, e) {
            (AppState::PreGenMenu, AppEvent::MenuReady) => AppState::GenConfig,
            (AppState::GenConfig, AppEvent::GenerateClicked) => AppState::GenRun,
            (AppState::GenRun, AppEvent::GenerationFinished) => AppState::GenDone,
            (AppState::GenDone, AppEvent::PlayClicked) => AppState::InGame,
            (AppState::GenDone, AppEvent::ResetSeedClicked) => AppState::PreGenMenu,
            _ => self,
        }
    }

    /// The label of the generate button in this state.
    pub fn button_text(self) -> (r: &'static str)
        ensures
            self == AppState::GenConfig ==> r@ == "Generate"@,
            self == AppState::GenRun ==> r@ == "Running..."@,
            self == AppState::GenDone ==> r@ == "Done - Click to play!"@,
            self != AppState::GenConfig && self != AppState::GenRun && self != AppState::GenDone
                ==> r@ == "Shouldn't be here...."@,
    {
        match self {
            AppState::GenConfig => "Generate",
            AppState::GenRun => "Running...",
            AppState::GenDone => "Done - Click to play!",
            _ => "Shouldn't be here....",
        }
    }
}

} // verus!
