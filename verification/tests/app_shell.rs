use pulp_reader::app::browser::BrowserState;
use pulp_reader::app::home::HomeState;
use pulp_reader::app::model::{
    AppAction, AppScreen, AppShell, BrowserEntry, BrowserEntryKind, HomeMenuItem, ReaderSession,
};
use pulp_reader::app::reader::ReaderState;

#[test]
fn shell_starts_at_home() {
    let s = AppShell::new();
    assert_eq!(s.screen(), AppScreen::Home);
    assert_eq!(s.home_selected(), 0);
    assert_eq!(s.browser_path(), "/");
    assert_eq!(s.browser_selected(), 0);
    assert!(s.browser_entries().is_empty());
    assert!(s.reader_session().is_none());
    assert!(s.selected_browser_entry().is_none());
    assert_eq!(AppShell::default().browser_path(), "/");
}

#[test]
fn home_selection_is_clamped() {
    let mut s = AppShell::new();
    s.set_home_selected(10);
    assert_eq!(s.home_selected(), 2);
    assert_eq!(s.home_item(), HomeMenuItem::Settings);
    s.set_home_selected(1);
    assert_eq!(s.home_item(), HomeMenuItem::FileBrowser);
}

#[test]
fn browser_selection_is_clamped() {
    let mut s = AppShell::new();
    s.set_browser_selected(3);
    assert_eq!(s.browser_selected(), 0);
    s.set_browser_entries(vec![BrowserEntry::file("a"), BrowserEntry::file("b")]);
    s.set_browser_selected(9);
    assert_eq!(s.browser_selected(), 1);
    s.set_browser_entries(vec![BrowserEntry::file("c")]);
    assert_eq!(s.browser_selected(), 0);
    assert_eq!(s.selected_browser_entry().unwrap().name, "c");
}

#[test]
fn reader_sessions() {
    let mut s = AppShell::new();
    s.set_reader_session(ReaderSession::new("b.epub"));
    let got = s.reader_session().unwrap();
    assert_eq!(got.book_path, "b.epub");
    assert_eq!(got.current_page, 0);
    assert_eq!(got.total_pages, None);
    assert_eq!(got.last_opened_unix, None);
    let copy = s.clone();
    assert_eq!(copy.reader_session().unwrap().book_path, "b.epub");
    s.clear_reader_session();
    assert!(s.reader_session().is_none());
}

#[test]
fn home_menu_titles() {
    assert_eq!(HomeMenuItem::ContinueReading.title(), "Continue Reading");
    assert_eq!(HomeMenuItem::FileBrowser.title(), "File Browser");
    assert_eq!(HomeMenuItem::Settings.title(), "Settings");
    assert_eq!(HomeMenuItem::ALL.len(), 3);
}

#[test]
fn home_navigation() {
    let mut s = AppShell::new();
    let mut h = HomeState::new();
    assert_eq!(h.handle_action(&mut s, AppAction::Up), None);
    assert_eq!(s.home_selected(), 0);
    assert_eq!(h.handle_action(&mut s, AppAction::Down), None);
    assert_eq!(h.selected(&s), HomeMenuItem::FileBrowser);
    assert_eq!(h.handle_action(&mut s, AppAction::Select), Some(AppScreen::Browser));
    assert_eq!(s.screen(), AppScreen::Browser);
    h.handle_action(&mut s, AppAction::Down);
    h.handle_action(&mut s, AppAction::Down);
    assert_eq!(s.home_selected(), 2);
    assert_eq!(h.handle_action(&mut s, AppAction::Select), Some(AppScreen::Home));
    h.handle_action(&mut s, AppAction::Up);
    h.handle_action(&mut s, AppAction::Up);
    assert_eq!(h.handle_action(&mut s, AppAction::Select), Some(AppScreen::Reader));
    assert_eq!(h.handle_action(&mut s, AppAction::Back), Some(AppScreen::Home));
    assert_eq!(s.screen(), AppScreen::Home);
    assert_eq!(h.handle_action(&mut s, AppAction::Left), None);
    assert_eq!(h.handle_action(&mut s, AppAction::Noop), None);
}

#[test]
fn browser_seeding_is_idempotent() {
    let mut s = AppShell::new();
    let mut b = BrowserState::new();
    b.seed_placeholder_entries(&mut s);
    let names: Vec<&str> = s.browser_entries().iter().map(|e| e.name.as_str()).collect();
    assert_eq!(names, vec!["..", "books", "documents", "example.epub", "welcome.txt"]);
    assert_eq!(s.browser_entries()[0].kind, BrowserEntryKind::Parent);
    assert_eq!(s.browser_entries()[1].kind, BrowserEntryKind::Directory);
    assert_eq!(s.browser_entries()[4].kind, BrowserEntryKind::File);
    b.handle_action(&mut s, AppAction::Down);
    b.seed_placeholder_entries(&mut s);
    assert_eq!(s.browser_entries().len(), 5);
    assert_eq!(s.browser_selected(), 1);
}

#[test]
fn browser_navigation() {
    let mut s = AppShell::new();
    let mut b = BrowserState::new();
    assert_eq!(b.handle_action(&mut s, AppAction::Down), None);
    assert_eq!(b.handle_action(&mut s, AppAction::Select), None);
    b.seed_placeholder_entries(&mut s);
    for _ in 0..10 {
        b.handle_action(&mut s, AppAction::Down);
    }
    assert_eq!(s.browser_selected(), 4);
    assert_eq!(b.handle_action(&mut s, AppAction::Select), Some(AppScreen::Reader));
    assert_eq!(s.screen(), AppScreen::Reader);
    b.handle_action(&mut s, AppAction::Up);
    b.handle_action(&mut s, AppAction::Up);
    b.handle_action(&mut s, AppAction::Up);
    assert_eq!(s.browser_selected(), 1);
    assert_eq!(b.handle_action(&mut s, AppAction::Select), None);
    assert_eq!(s.browser_path(), "books");
    b.handle_action(&mut s, AppAction::Up);
    b.handle_action(&mut s, AppAction::Up);
    assert_eq!(s.browser_selected(), 0);
    assert_eq!(b.handle_action(&mut s, AppAction::Select), Some(AppScreen::Home));
    assert_eq!(s.screen(), AppScreen::Home);
    assert_eq!(b.handle_action(&mut s, AppAction::Back), Some(AppScreen::Home));
    assert_eq!(b.handle_action(&mut s, AppAction::Right), None);
}

#[test]
fn browser_placeholder_entries_open_the_reader() {
    let mut s = AppShell::new();
    s.set_browser_entries(vec![BrowserEntry::placeholder("loading")]);
    let mut b = BrowserState::new();
    assert_eq!(b.handle_action(&mut s, AppAction::Select), Some(AppScreen::Reader));
    assert_eq!(s.browser_path(), "/");
}

#[test]
fn reader_position() {
    let mut r = ReaderState::new();
    assert_eq!((r.page(), r.chapter()), (0, 0));
    r.set_position(12, 3);
    assert_eq!((r.page(), r.chapter()), (12, 3));
    let d = ReaderState::default();
    assert_eq!((d.page(), d.chapter()), (0, 0));
}
