//! The home screen: a menu of three items.
use vstd::prelude::*;
use crate::app::model::{
    home_item_at, home_item_count, saturating_pred, min, AppAction, AppScreen, AppShell,
    AppShellView, HomeMenuItem,
};

verus! {

#[derive(Debug, Clone, Default)]
pub struct HomeState;

/// The screen that selecting a home menu item opens.
pub open spec fn screen_for_item(item: HomeMenuItem) -> AppScreen {
    match item {
        HomeMenuItem::ContinueReading => AppScreen::Reader,
        HomeMenuItem::FileBrowser => AppScreen::Browser,
        HomeMenuItem::Settings => AppScreen::Home,
    }
}

/// What an action does on the home screen: the new shell, and the screen to switch to, if
/// any.
pub open spec fn home_step(s: AppShellView, action: AppAction) -> (AppShellView, Option<AppScreen>) {
    match action {
        AppAction::Up => (s.with_home_selected(saturating_pred(s.home_selected)), None),
        AppAction::Down => (
            s.with_home_selected(min(s.home_selected + 1, home_item_count() - 1)),
            None,
        ),
        AppAction::Select => {
            let next = screen_for_item(home_item_at(s.home_selected));
            (s.with_screen(next), Some(next))
        },
        AppAction::Back => (s.with_screen(AppScreen::Home), Some(AppScreen::Home)),
        _ => (s, None),
    }
}

impl HomeState {
    pub fn new() -> (r: HomeState) {
        HomeState
    }

    /// The menu item that the shell has selected.
    pub fn selected(&self, shell: &AppShell) -> (r: HomeMenuItem)
        ensures
            r == home_item_at(shell@.home_selected),
    {
        shell.home_item()
    }

    pub fn handle_action(&mut self, shell: &mut AppShell, action: AppAction) -> (r: Option<
        AppScreen,
    >)
        ensures
            (final(shell)@, r) == home_step(old(shell)@, action),
            final(shell)@.wf(),
    {
        let sel = shell.home_selected();
        match action {
            AppAction::Up => {
                let next = if sel > 0 {
                    sel - 1
                } else {
                    0
                };
                shell.set_home_selected(next);
                None
            },
            AppAction::Down => {
                let next = if sel + 1 < 2 {
                    sel + 1
                } else {
                    2
                };
                shell.set_home_selected(next);
                None
            },
            AppAction::Select => {
                let next_screen = match shell.home_item() {
                    HomeMenuItem::ContinueReading => AppScreen::Reader,
                    HomeMenuItem::FileBrowser => AppScreen::Browser,
                    HomeMenuItem::Settings => AppScreen::Home,
                };
                shell.set_screen(next_screen);
                Some(next_screen)
            },
            AppAction::Back => {
                shell.set_screen(AppScreen::Home);
                Some(AppScreen::Home)
            },
            AppAction::Left | AppAction::Right | AppAction::Noop => None,
        }
    }
}

/// Every home action keeps the shell well formed.
pub proof fn lemma_home_step_wf(s: AppShellView, action: AppAction)
    requires
        s.wf(),
    ensures
        home_step(s, action).0.wf(),
{
}

/// Moving down and then up returns to the same item, when the selection was not on the
/// last item.
pub proof fn lemma_home_down_up(s: AppShellView)
    requires
        s.wf(),
        s.home_selected + 1 < home_item_count(),
    ensures
        home_step(home_step(s, AppAction::Down).0, AppAction::Up).0 == s,
{
}

/// Moving up and then down returns to the same item, when the selection was not on the
/// first item.
pub proof fn lemma_home_up_down(s: AppShellView)
    requires
        s.wf(),
        s.home_selected > 0,
    ensures
        home_step(home_step(s, AppAction::Up).0, AppAction::Down).0 == s,
{
}

/// Back leads to the home screen, and so does selecting the settings item.
pub proof fn lemma_home_back(s: AppShellView)
    ensures
        home_step(s, AppAction::Back).1 == Some(AppScreen::Home),
        home_step(s, AppAction::Back).0.screen == AppScreen::Home,
        home_item_at(s.home_selected) == HomeMenuItem::Settings ==> home_step(
            s,
            AppAction::Select,
        ).0.screen == AppScreen::Home,
{
}

} // verus!
