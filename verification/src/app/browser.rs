//! The file browser screen: a list of entries, one of them selected.
use vstd::prelude::*;
use crate::app::model::{
    parent_name, saturating_pred, min, AppAction, AppScreen, AppShell, AppShellView,
    BrowserEntry, BrowserEntryKind, BrowserEntryView,
};

verus! {

#[derive(Debug, Clone, Default)]
pub struct BrowserState;

/// What the selected entry is, for the select action.
enum Selection {
    Nothing,
    Parent,
    Directory(String),
    Other,
}

/// The entries that stand in an empty browser until real ones are listed.
pub open spec fn placeholder_entries() -> Seq<BrowserEntryView> {
    seq![
        BrowserEntryView { name: parent_name(), kind: BrowserEntryKind::Parent },
        BrowserEntryView { name: "books"@, kind: BrowserEntryKind::Directory },
        BrowserEntryView { name: "documents"@, kind: BrowserEntryKind::Directory },
        BrowserEntryView { name: "example.epub"@, kind: BrowserEntryKind::File },
        BrowserEntryView { name: "welcome.txt"@, kind: BrowserEntryKind::File },
    ]
}

/// The shell after seeding: unchanged when it has entries, else holding the placeholder
/// entries with the first one selected.
pub open spec fn seed_step(s: AppShellView) -> AppShellView {
    if s.browser_entries.len() > 0 {
        s
    } else {
        s.with_browser_entries(placeholder_entries()).with_browser_selected(0)
    }
}

/// What an action does on the browser screen: the new shell, and the screen to switch to,
/// if any.
pub open spec fn browser_step(s: AppShellView, action: AppAction) -> (
    AppShellView,
    Option<AppScreen>,
) {
    match action {
        AppAction::Up => (s.with_browser_selected(saturating_pred(s.browser_selected)), None),
        AppAction::Down => if s.browser_entries.len() > 0 {
            (
                s.with_browser_selected(
                    min(s.browser_selected + 1, s.browser_entries.len() - 1),
                ),
                None,
            )
        } else {
            (s, None)
        },
        AppAction::Select => match s.selected_entry() {
            Some(entry) => if entry.name == parent_name() {
                (s.with_screen(AppScreen::Home), Some(AppScreen::Home))
            } else if entry.kind == BrowserEntryKind::Directory {
                (s.with_browser_path(entry.name), None)
            } else {
                (s.with_screen(AppScreen::Reader), Some(AppScreen::Reader))
            },
            None => (s, None),
        },
        AppAction::Back => (s.with_screen(AppScreen::Home), Some(AppScreen::Home)),
        _ => (s, None),
    }
}

impl BrowserState {
    pub fn new() -> (r: BrowserState) {
        BrowserState
    }

    /// Fills an empty browser with placeholder entries.
    pub fn seed_placeholder_entries(&mut self, shell: &mut AppShell)
        ensures
            final(shell)@ == seed_step(old(shell)@),
            final(shell)@.wf(),
    {
        let _ = shell.browser_selected();
        if shell.browser_entries().len() > 0 {
            return;
        }
        let entries: Vec<BrowserEntry> = vec![
            BrowserEntry::parent(),
            BrowserEntry::directory("books"),
            BrowserEntry::directory("documents"),
            BrowserEntry::file("example.epub"),
            BrowserEntry::file("welcome.txt"),
        ];
        assert(entries@.map_values(|e: BrowserEntry| e@) =~= placeholder_entries());
        shell.set_browser_entries(entries);
        shell.set_browser_selected(0);
    }

    pub fn handle_action(&mut self, shell: &mut AppShell, action: AppAction) -> (r: Option<
        AppScreen,
    >)
        ensures
            (final(shell)@, r) == browser_step(old(shell)@, action),
            final(shell)@.wf(),
    {
        let sel = shell.browser_selected();
        match action {
            AppAction::Up => {
                let next = if sel > 0 {
                    sel - 1
                } else {
                    0
                };
                shell.set_browser_selected(next);
                None
            },
            AppAction::Down => {
                let len = shell.browser_entries().len();
                if len > 0 {
                    let next = if sel + 1 < len - 1 {
                        sel + 1
                    } else {
                        len - 1
                    };
                    shell.set_browser_selected(next);
                }
                None
            },
            AppAction::Select => {
                let outcome = match shell.selected_browser_entry() {
                    Some(entry) => {
                        if entry.is_parent_name() {
                            Selection::Parent
                        } else if entry.kind == BrowserEntryKind::Directory {
                            Selection::Directory(crate::text::string_from(entry.name.as_str()))
                        } else {
                            Selection::Other
                        }
                    },
                    None => Selection::Nothing,
                };
                match outcome {
                    Selection::Parent => {
                        shell.set_screen(AppScreen::Home);
                        Some(AppScreen::Home)
                    },
                    Selection::Directory(name) => {
                        shell.set_browser_path(name.as_str());
                        None
                    },
                    Selection::Other => {
                        shell.set_screen(AppScreen::Reader);
                        Some(AppScreen::Reader)
                    },
                    Selection::Nothing => None,
                }
            },
            AppAction::Back => {
                shell.set_screen(AppScreen::Home);
                Some(AppScreen::Home)
            },
            AppAction::Left | AppAction::Right | AppAction::Noop => None,
        }
    }
}

/// Seeding a second time changes nothing.
pub proof fn lemma_seed_idempotent(s: AppShellView)
    ensures
        seed_step(seed_step(s)) == seed_step(s),
{
    assert(placeholder_entries().len() == 5);
}

/// Every browser action keeps the shell well formed.
pub proof fn lemma_browser_step_wf(s: AppShellView, action: AppAction)
    requires
        s.wf(),
    ensures
        browser_step(s, action).0.wf(),
        seed_step(s).wf(),
{
    assert(placeholder_entries().len() == 5);
}

/// Moving down and then up returns to the same entry, when the selection was not on the
/// last entry.
pub proof fn lemma_browser_down_up(s: AppShellView)
    requires
        s.wf(),
        s.browser_selected + 1 < s.browser_entries.len(),
    ensures
        browser_step(browser_step(s, AppAction::Down).0, AppAction::Up).0 == s,
{
}

/// Moving up and then down returns to the same entry, when the selection was not on the
/// first entry.
pub proof fn lemma_browser_up_down(s: AppShellView)
    requires
        s.wf(),
        s.browser_selected > 0,
    ensures
        browser_step(browser_step(s, AppAction::Up).0, AppAction::Down).0 == s,
{
}

/// Back leads to the home screen.
pub proof fn lemma_browser_back(s: AppShellView)
    ensures
        browser_step(s, AppAction::Back).1 == Some(AppScreen::Home),
        browser_step(s, AppAction::Back).0.screen == AppScreen::Home,
{
}

/// The browser's directory changes only when a directory entry is selected, and then
/// becomes that entry's name; selecting any other entry changes at most the screen.
pub proof fn lemma_browser_path_changes_only_into_directories(s: AppShellView, action: AppAction)
    ensures
        browser_step(s, action).0.browser_path != s.browser_path ==> {
            &&& action == AppAction::Select
            &&& s.selected_entry() is Some
            &&& s.selected_entry()->0.kind == BrowserEntryKind::Directory
            &&& browser_step(s, action).0.browser_path == s.selected_entry()->0.name
        },
        action == AppAction::Select && s.selected_entry() is Some
            && s.selected_entry()->0.kind != BrowserEntryKind::Directory ==> browser_step(
            s,
            action,
        ).0 == s.with_screen(browser_step(s, action).0.screen),
        action != AppAction::Select ==> browser_step(s, action).0.browser_path == s.browser_path,
{
}

} // verus!
