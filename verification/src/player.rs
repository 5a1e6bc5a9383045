use vstd::prelude::*;

verus! {

/// Which phase of the respawn sequence the game is in.
#[derive(Clone, Copy, PartialEq, Eq, Debug, Structural)]
pub enum RespawnMode {
    /// Normal gameplay.
    Normal,
    /// Fading the screen to black before teleporting.
    FadingOut,
    /// Screen is fully black; fading back in at the spawn point.
    FadingIn,
}

/// Respawn and win state shared by all game systems.  The overlay's opacity,
/// which the renderer animates, lives beside it in the game shell.
#[derive(Clone, Copy, PartialEq, Eq, Debug, Structural)]
pub struct RespawnState {
    pub mode: RespawnMode,
    /// Set while the win overlay is displayed; stops other hazards (enemies,
    /// flowers, lava) from interfering with the win screen.
    pub won: bool,
}

/// What the game shell does after a step of the fade.
#[derive(Clone, Copy, PartialEq, Eq, Debug, Structural)]
pub enum FadeAction {
    /// Nothing beyond animating the overlay.
    Nothing,
    /// The screen is black: put the bee back at the spawn point, at rest.
    Teleport,
    /// The fade-in is over: make the overlay fully transparent.
    ClearOverlay,
}

/// What the game shell does after checking for a win.
#[derive(Clone, Copy, PartialEq, Eq, Debug, Structural)]
pub enum WinAction {
    Nothing,
    /// Hide the win overlay and put the bee back at the spawn point, at rest.
    Dismiss,
    /// Show the win overlay and stop the bee.
    ShowWin,
}

/// Hazards (lava, enemies, flowers) can send the bee back only in normal
/// play and while no win is being shown.
pub open spec fn hazards_live(s: RespawnState) -> bool {
    !s.won && s.mode == RespawnMode::Normal
}

/// State after a hazard touched the bee.
pub open spec fn after_hazard(s: RespawnState) -> RespawnState {
    if hazards_live(s) {
        RespawnState { mode: RespawnMode::FadingOut, won: s.won }
    } else {
        s
    }
}

/// State and action after one frame of the fade; `complete` says whether
/// the overlay reached its end (fully black when fading out, fully clear
/// when fading in) this frame.
pub open spec fn after_fade(s: RespawnState, complete: bool) -> (RespawnState, FadeAction) {
    match s.mode {
        RespawnMode::Normal => (s, FadeAction::Nothing),
        RespawnMode::FadingOut => if complete {
            (RespawnState { mode: RespawnMode::FadingIn, won: s.won }, FadeAction::Teleport)
        } else {
            (s, FadeAction::Nothing)
        },
        RespawnMode::FadingIn => if complete {
            (RespawnState { mode: RespawnMode::Normal, won: s.won }, FadeAction::ClearOverlay)
        } else {
            (s, FadeAction::Nothing)
        },
    }
}

/// State and action after one frame of the win check.
pub open spec fn after_win_check(
    s: RespawnState,
    overlay_shown: bool,
    restart_pressed: bool,
    touching_red_flower: bool,
) -> (RespawnState, WinAction) {
    if overlay_shown {
        if restart_pressed {
            (RespawnState { mode: s.mode, won: false }, WinAction::Dismiss)
        } else {
            (s, WinAction::Nothing)
        }
    } else if s.mode != RespawnMode::Normal {
        (s, WinAction::Nothing)
    } else if touching_red_flower {
        (RespawnState { mode: s.mode, won: true }, WinAction::ShowWin)
    } else {
        (s, WinAction::Nothing)
    }
}

impl RespawnState {
    /// Normal play, nothing won.
    pub fn new() -> (s: Self)
        ensures
            s.mode == RespawnMode::Normal,
            !s.won,
    {
        RespawnState { mode: RespawnMode::Normal, won: false }
    }

    /// Whether the bee reacts to thrust and aim: only in normal play.
    pub fn controls_enabled(&self) -> (enabled: bool)
        ensures
            enabled == (self.mode == RespawnMode::Normal),
    {
        match self.mode {
            RespawnMode::Normal => true,
            _ => false,
        }
    }

    /// Whether lava, enemies and flowers can send the bee back now.
    pub fn hazards_active(&self) -> (active: bool)
        ensures
            active == hazards_live(*self),
    {
        !self.won && self.controls_enabled()
    }

    /// A hazard touched the bee: start fading out if hazards are live.
    /// Returns whether the respawn started (the shell then resets the
    /// overlay's opacity to clear).
    pub fn trigger_respawn(&mut self) -> (started: bool)
        ensures
            started == hazards_live(*old(self)),
            *final(self) == after_hazard(*old(self)),
    {
        if self.hazards_active() {
            self.mode = RespawnMode::FadingOut;
            true
        } else {
            false
        }
    }

    /// One frame of the fade-out, teleport, fade-in cycle.
    pub fn advance_fade(&mut self, complete: bool) -> (action: FadeAction)
        ensures
            (*final(self), action) == after_fade(*old(self), complete),
    {
        match self.mode {
            RespawnMode::Normal => FadeAction::Nothing,
            RespawnMode::FadingOut => {
                if complete {
                    self.mode = RespawnMode::FadingIn;
                    FadeAction::Teleport
                } else {
                    FadeAction::Nothing
                }
            },
            RespawnMode::FadingIn => {
                if complete {
                    self.mode = RespawnMode::Normal;
                    FadeAction::ClearOverlay
                } else {
                    FadeAction::Nothing
                }
            },
        }
    }

    /// One frame of the win check: while the win overlay is shown, pressing
    /// restart dismisses it; otherwise, in normal play, touching the red
    /// flower shows it.
    pub fn check_win(
        &mut self,
        overlay_shown: bool,
        restart_pressed: bool,
        touching_red_flower: bool,
    ) -> (action: WinAction)
        ensures
            (*final(self), action) == after_win_check(
                *old(self),
                overlay_shown,
                restart_pressed,
                touching_red_flower,
            ),
    {
        if overlay_shown {
            if restart_pressed {
                self.won = false;
                WinAction::Dismiss
            } else {
                WinAction::Nothing
            }
        } else if !self.controls_enabled() {
            WinAction::Nothing
        } else if touching_red_flower {
            self.won = true;
            WinAction::ShowWin
        } else {
            WinAction::Nothing
        }
    }
}

/// Law: a hazard in normal play starts a respawn, and two completed fades
/// (out, then in) teleport the bee once and bring the game back to exactly
/// the state it was in.
pub proof fn lemma_respawn_cycle(s: RespawnState)
    requires
        hazards_live(s),
    ensures
        after_hazard(s).mode == RespawnMode::FadingOut,
        after_fade(after_hazard(s), true).1 == FadeAction::Teleport,
        after_fade(after_hazard(s), true).0.mode == RespawnMode::FadingIn,
        after_fade(after_fade(after_hazard(s), true).0, true).1 == FadeAction::ClearOverlay,
        after_fade(after_fade(after_hazard(s), true).0, true).0 == s,
{
}

/// Law: a fade that has not completed changes nothing.
pub proof fn lemma_fade_waits(s: RespawnState)
    ensures
        after_fade(s, false) == (s, FadeAction::Nothing),
{
}

/// Law: while a win is shown or a respawn is under way, hazards change
/// nothing; in particular a respawn never restarts midway.
pub proof fn lemma_hazards_inert(s: RespawnState)
    requires
        s.won || s.mode != RespawnMode::Normal,
    ensures
        after_hazard(s) == s,
{
}

/// Law: touching the red flower in normal play shows the win and silences
/// hazards; restarting then dismisses it and hazards are live again.
pub proof fn lemma_win_then_restart(s: RespawnState, restart: bool, touching: bool)
    requires
        hazards_live(s),
    ensures
        ({
            let (w, a) = after_win_check(s, false, restart, true);
            &&& a == WinAction::ShowWin
            &&& w.won
            &&& after_hazard(w) == w
            &&& after_win_check(w, true, true, touching) == (s, WinAction::Dismiss)
        }),
{
}

/// Law: while the win overlay is shown and restart is not pressed, the win
/// check changes nothing and does nothing, whether or not the bee touches the
/// red flower; so a shown win stays won and hazards stay as they were.
pub proof fn lemma_win_screen_holds(s: RespawnState, touching: bool)
    ensures
        after_win_check(s, true, false, touching) == (s, WinAction::Nothing),
        hazards_live(after_win_check(s, true, false, touching).0) == hazards_live(s),
{
}

/// Law: the win check never changes the respawn mode, and changes the win
/// flag only when it shows the win (setting it) or dismisses it (clearing it).
pub proof fn lemma_win_check_touches_only_won(
    s: RespawnState,
    shown: bool,
    restart: bool,
    touching: bool,
)
    ensures
        ({
            let (w, a) = after_win_check(s, shown, restart, touching);
            &&& w.mode == s.mode
            &&& a == WinAction::Nothing ==> w == s
            &&& a == WinAction::ShowWin ==> w.won && !shown && touching && s.mode == RespawnMode::Normal
            &&& a == WinAction::Dismiss ==> !w.won && shown && restart
        }),
{
}

/// Law: once the win is shown, no hazard can send the bee back until the win
/// is dismissed.
pub proof fn lemma_no_hazard_on_win_screen(s: RespawnState, touching: bool)
    requires
        s.won,
    ensures
        after_hazard(after_win_check(s, true, false, touching).0) == s,
{
}

/// Tracks the number of enemies defeated this session.
#[derive(Clone, Copy, PartialEq, Eq, Debug, Structural)]
pub struct Score {
    pub enemies_defeated: u32,
}

impl Score {
    /// No enemy defeated yet.
    pub fn new() -> (s: Self)
        ensures
            s.enemies_defeated == 0,
    {
        Score { enemies_defeated: 0 }
    }

    /// Counts one more defeated enemy.
    pub fn record_defeat(&mut self)
        requires
            old(self).enemies_defeated < u32::MAX,
        ensures
            final(self).enemies_defeated == old(self).enemies_defeated + 1,
    {
        self.enemies_defeated = self.enemies_defeated + 1;
    }

    /// Counts `count` more defeated enemies.
    pub fn record_defeats(&mut self, count: usize)
        requires
            old(self).enemies_defeated + count <= u32::MAX,
        ensures
            final(self).enemies_defeated == old(self).enemies_defeated + count,
    {
        self.enemies_defeated = self.enemies_defeated + count as u32;
    }
}

} // verus!
