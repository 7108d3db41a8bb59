//! The application shell: which screen is shown, the home menu selection, and the file
//! browser's path, entries and selection.
use vstd::prelude::*;
use crate::text::{str_eq, string_from};

verus! {

#[derive(Debug, Clone, Copy, PartialEq, Eq, Structural)]
pub enum AppScreen {
    Home,
    Browser,
    Reader,
}

#[derive(Debug, Clone, Copy, PartialEq, Eq, Structural)]
pub enum AppAction {
    Up,
    Down,
    Left,
    Right,
    Select,
    Back,
    Noop,
}

#[derive(Debug, Clone, Copy, PartialEq, Eq, Structural)]
pub enum HomeMenuItem {
    ContinueReading,
    FileBrowser,
    Settings,
}

/// The home menu item at position `i`, counted from the top.
pub open spec fn home_item_at(i: int) -> HomeMenuItem {
    if i == 0 {
        HomeMenuItem::ContinueReading
    } else if i == 1 {
        HomeMenuItem::FileBrowser
    } else {
        HomeMenuItem::Settings
    }
}

pub open spec fn home_item_title(item: HomeMenuItem) -> Seq<char> {
    match item {
        HomeMenuItem::ContinueReading => "Continue Reading"@,
        HomeMenuItem::FileBrowser => "File Browser"@,
        HomeMenuItem::Settings => "Settings"@,
    }
}

impl HomeMenuItem {
    /// The items of the home menu, from the top.
    pub const ALL: [HomeMenuItem; 3] = [
        HomeMenuItem::ContinueReading,
        HomeMenuItem::FileBrowser,
        HomeMenuItem::Settings,
    ];

    pub fn title(self) -> (r: &'static str)
        ensures
            r@ == home_item_title(self),
    {
        match self {
            HomeMenuItem::ContinueReading => "Continue Reading",
            HomeMenuItem::FileBrowser => "File Browser",
            HomeMenuItem::Settings => "Settings",
        }
    }
}

/// The number of home menu items.
pub open spec fn home_item_count() -> int {
    3
}

#[derive(Debug, Clone, Copy, PartialEq, Eq, Structural)]
pub enum BrowserEntryKind {
    File,
    Directory,
    Parent,
    Placeholder,
}

#[derive(Debug, Clone, PartialEq, Eq)]
pub struct BrowserEntry {
    pub name: String,
    pub kind: BrowserEntryKind,
}

pub struct BrowserEntryView {
    pub name: Seq<char>,
    pub kind: BrowserEntryKind,
}

impl View for BrowserEntry {
    type V = BrowserEntryView;

    open spec fn view(&self) -> BrowserEntryView {
        BrowserEntryView { name: self.name@, kind: self.kind }
    }
}

/// The name of the entry that leads to the parent directory.
pub open spec fn parent_name() -> Seq<char> {
    ".."@
}

impl BrowserEntry {
    pub fn file(name: &str) -> (r: BrowserEntry)
        ensures
            r@ == (BrowserEntryView { name: name@, kind: BrowserEntryKind::File }),
    {
        BrowserEntry { name: string_from(name), kind: BrowserEntryKind::File }
    }

    pub fn directory(name: &str) -> (r: BrowserEntry)
        ensures
            r@ == (BrowserEntryView { name: name@, kind: BrowserEntryKind::Directory }),
    {
        BrowserEntry { name: string_from(name), kind: BrowserEntryKind::Directory }
    }

    pub fn parent() -> (r: BrowserEntry)
        ensures
            r@ == (BrowserEntryView { name: parent_name(), kind: BrowserEntryKind::Parent }),
    {
        BrowserEntry { name: string_from(".."), kind: BrowserEntryKind::Parent }
    }

    pub fn placeholder(name: &str) -> (r: BrowserEntry)
        ensures
            r@ == (BrowserEntryView { name: name@, kind: BrowserEntryKind::Placeholder }),
    {
        BrowserEntry { name: string_from(name), kind: BrowserEntryKind::Placeholder }
    }

    /// Whether this entry is named `..`.
    pub(crate) fn is_parent_name(&self) -> (r: bool)
        ensures
            r == (self.name@ == parent_name()),
    {
        str_eq(self.name.as_str(), "..")
    }
}

#[derive(Debug, Clone, PartialEq, Eq)]
pub struct ReaderSession {
    pub book_path: String,
    pub current_page: u32,
    pub total_pages: Option<u32>,
    pub last_opened_unix: Option<u64>,
}

pub struct ReaderSessionView {
    pub book_path: Seq<char>,
    pub current_page: u32,
    pub total_pages: Option<u32>,
    pub last_opened_unix: Option<u64>,
}

impl View for ReaderSession {
    type V = ReaderSessionView;

    open spec fn view(&self) -> ReaderSessionView {
        ReaderSessionView {
            book_path: self.book_path@,
            current_page: self.current_page,
            total_pages: self.total_pages,
            last_opened_unix: self.last_opened_unix,
        }
    }
}

impl ReaderSession {
    pub fn new(book_path: &str) -> (r: ReaderSession)
        ensures
            r@ == (ReaderSessionView {
                book_path: book_path@,
                current_page: 0,
                total_pages: None,
                last_opened_unix: None,
            }),
    {
        ReaderSession {
            book_path: string_from(book_path),
            current_page: 0,
            total_pages: None,
            last_opened_unix: None,
        }
    }
}

/// What the shell holds.
pub struct AppShellView {
    pub screen: AppScreen,
    pub home_selected: int,
    pub browser_path: Seq<char>,
    pub browser_selected: int,
    pub browser_entries: Seq<BrowserEntryView>,
    pub reader_session: Option<ReaderSessionView>,
}

/// `n - 1`, or 0 when `n` is 0.
pub open spec fn saturating_pred(n: int) -> int {
    if n > 0 {
        n - 1
    } else {
        0
    }
}

pub open spec fn min(a: int, b: int) -> int {
    if a <= b {
        a
    } else {
        b
    }
}

impl AppShellView {
    /// The home selection names a menu item, and the browser selection names an entry
    /// (or is 0 when there is none).
    pub open spec fn wf(self) -> bool {
        &&& 0 <= self.home_selected < home_item_count()
        &&& 0 <= self.browser_selected
        &&& (self.browser_selected == 0 || self.browser_selected < self.browser_entries.len())
    }

    pub open spec fn with_screen(self, screen: AppScreen) -> AppShellView {
        AppShellView { screen, ..self }
    }

    /// The shell after selecting home menu item `idx`, clamped to the last item.
    pub open spec fn with_home_selected(self, idx: int) -> AppShellView {
        AppShellView { home_selected: min(idx, home_item_count() - 1), ..self }
    }

    pub open spec fn with_browser_path(self, path: Seq<char>) -> AppShellView {
        AppShellView { browser_path: path, ..self }
    }

    /// The shell after selecting browser entry `idx`, clamped to the last entry.
    pub open spec fn with_browser_selected(self, idx: int) -> AppShellView {
        AppShellView {
            browser_selected: min(idx, saturating_pred(self.browser_entries.len() as int)),
            ..self
        }
    }

    /// The shell with new browser entries; the selection is clamped to the last one.
    pub open spec fn with_browser_entries(self, entries: Seq<BrowserEntryView>) -> AppShellView {
        AppShellView {
            browser_entries: entries,
            browser_selected: min(self.browser_selected, saturating_pred(entries.len() as int)),
            ..self
        }
    }

    /// The selected browser entry, if the selection names one.
    pub open spec fn selected_entry(self) -> Option<BrowserEntryView> {
        if 0 <= self.browser_selected < self.browser_entries.len() {
            Some(self.browser_entries[self.browser_selected])
        } else {
            None
        }
    }
}

/// The state of the shell when the device starts.
pub open spec fn initial_shell() -> AppShellView {
    AppShellView {
        screen: AppScreen::Home,
        home_selected: 0,
        browser_path: "/"@,
        browser_selected: 0,
        browser_entries: seq![],
        reader_session: None,
    }
}

#[derive(Debug)]
pub struct AppShell {
    screen: AppScreen,
    home_selected: usize,
    browser_path: String,
    browser_selected: usize,
    browser_entries: Vec<BrowserEntry>,
    reader_session: Option<ReaderSession>,
}

impl View for AppShell {
    type V = AppShellView;

    closed spec fn view(&self) -> AppShellView {
        AppShellView {
            screen: self.screen,
            home_selected: self.home_selected as int,
            browser_path: self.browser_path@,
            browser_selected: self.browser_selected as int,
            browser_entries: self.browser_entries@.map_values(|e: BrowserEntry| e@),
            reader_session: match self.reader_session {
                Some(s) => Some(s@),
                None => None,
            },
        }
    }
}

impl AppShell {
    #[verifier::type_invariant]
    spec fn inv(self) -> bool {
        &&& self.home_selected < 3
        &&& (self.browser_selected == 0 || self.browser_selected < self.browser_entries.len())
    }

    pub fn new() -> (r: AppShell)
        ensures
            r@ == initial_shell(),
            r@.wf(),
    {
        let s = AppShell {
            screen: AppScreen::Home,
            home_selected: 0,
            browser_path: string_from("/"),
            browser_selected: 0,
            browser_entries: Vec::new(),
            reader_session: None,
        };
        assert(s@.browser_entries == Seq::<BrowserEntryView>::empty());
        s
    }

    pub fn screen(&self) -> (r: AppScreen)
        ensures
            r == self@.screen,
    {
        self.screen
    }

    pub fn set_screen(&mut self, screen: AppScreen)
        ensures
            final(self)@ == old(self)@.with_screen(screen),
            final(self)@.wf(),
    {
        proof {
            use_type_invariant(&*self);
        }
        self.screen = screen;
    }

    pub fn home_selected(&self) -> (r: usize)
        ensures
            r == self@.home_selected,
            self@.wf(),
    {
        proof {
            use_type_invariant(self);
        }
        self.home_selected
    }

    pub fn set_home_selected(&mut self, idx: usize)
        ensures
            final(self)@ == old(self)@.with_home_selected(idx as int),
            final(self)@.wf(),
    {
        proof {
            use_type_invariant(&*self);
        }
        self.home_selected = if idx < 2 {
            idx
        } else {
            2
        };
    }

    pub fn home_item(&self) -> (r: HomeMenuItem)
        ensures
            r == home_item_at(self@.home_selected),
    {
        proof {
            use_type_invariant(self);
        }
        HomeMenuItem::ALL[self.home_selected]
    }

    pub fn browser_path(&self) -> (r: &str)
        ensures
            r@ == self@.browser_path,
    {
        self.browser_path.as_str()
    }

    pub fn set_browser_path(&mut self, path: &str)
        ensures
            final(self)@ == old(self)@.with_browser_path(path@),
            final(self)@.wf(),
    {
        proof {
            use_type_invariant(&*self);
        }
        self.browser_path = string_from(path);
    }

    pub fn browser_selected(&self) -> (r: usize)
        ensures
            r == self@.browser_selected,
            self@.wf(),
    {
        proof {
            use_type_invariant(self);
        }
        self.browser_selected
    }

    pub fn set_browser_selected(&mut self, idx: usize)
        ensures
            final(self)@ == old(self)@.with_browser_selected(idx as int),
            final(self)@.wf(),
    {
        proof {
            use_type_invariant(&*self);
        }
        let len = self.browser_entries.len();
        let max = if len > 0 {
            len - 1
        } else {
            0
        };
        self.browser_selected = if idx < max {
            idx
        } else {
            max
        };
    }

    pub fn browser_entries(&self) -> (r: &[BrowserEntry])
        ensures
            r@.map_values(|e: BrowserEntry| e@) == self@.browser_entries,
    {
        self.browser_entries.as_slice()
    }

    pub fn set_browser_entries(&mut self, entries: Vec<BrowserEntry>)
        ensures
            final(self)@ == old(self)@.with_browser_entries(
                entries@.map_values(|e: BrowserEntry| e@),
            ),
            final(self)@.wf(),
    {
        proof {
            use_type_invariant(&*self);
        }
        let len = entries.len();
        let max = if len > 0 {
            len - 1
        } else {
            0
        };
        let sel = if self.browser_selected < max {
            self.browser_selected
        } else {
            max
        };
        self.browser_selected = sel;
        self.browser_entries = entries;
    }

    pub fn selected_browser_entry(&self) -> (r: Option<&BrowserEntry>)
        ensures
            match r {
                Some(e) => self@.selected_entry() == Some(e@),
                None => self@.selected_entry() is None,
            },
    {
        if self.browser_selected < self.browser_entries.len() {
            Some(&self.browser_entries[self.browser_selected])
        } else {
            None
        }
    }

    pub fn reader_session(&self) -> (r: Option<&ReaderSession>)
        ensures
            match r {
                Some(s) => self@.reader_session == Some(s@),
                None => self@.reader_session is None,
            },
    {
        self.reader_session.as_ref()
    }

    pub fn set_reader_session(&mut self, session: ReaderSession)
        ensures
            final(self)@ == (AppShellView { reader_session: Some(session@), ..old(self)@ }),
            final(self)@.wf(),
    {
        proof {
            use_type_invariant(&*self);
        }
        self.reader_session = Some(session);
    }

    pub fn clear_reader_session(&mut self)
        ensures
            final(self)@ == (AppShellView { reader_session: None, ..old(self)@ }),
            final(self)@.wf(),
    {
        proof {
            use_type_invariant(&*self);
        }
        self.reader_session = None;
    }
}

impl BrowserEntry {
    /// A copy of this entry.
    fn duplicate(&self) -> (r: BrowserEntry)
        ensures
            r@ == self@,
    {
        BrowserEntry { name: string_from(self.name.as_str()), kind: self.kind }
    }
}

impl ReaderSession {
    /// A copy of this session.
    fn duplicate(&self) -> (r: ReaderSession)
        ensures
            r@ == self@,
    {
        ReaderSession {
            book_path: string_from(self.book_path.as_str()),
            current_page: self.current_page,
            total_pages: self.total_pages,
            last_opened_unix: self.last_opened_unix,
        }
    }
}

impl Clone for AppShell {
    fn clone(&self) -> (r: AppShell)
        ensures
            r@ == self@,
    {
        proof {
            use_type_invariant(self);
        }
        let mut entries: Vec<BrowserEntry> = Vec::new();
        for i in 0..self.browser_entries.len()
            invariant
                entries@.map_values(|e: BrowserEntry| e@) == self.browser_entries@.take(
                    i as int,
                ).map_values(|e: BrowserEntry| e@),
        {
            let ghost before = entries@.map_values(|e: BrowserEntry| e@);
            entries.push(self.browser_entries[i].duplicate());
            assert(entries@.map_values(|e: BrowserEntry| e@) =~= before.push(
                self.browser_entries@[i as int]@,
            ));
            assert(self.browser_entries@.take(i + 1) =~= self.browser_entries@.take(i as int).push(
                self.browser_entries@[i as int],
            ));
            assert(self.browser_entries@.take(i + 1).map_values(|e: BrowserEntry| e@)
                =~= self.browser_entries@.take(i as int).map_values(|e: BrowserEntry| e@).push(
                self.browser_entries@[i as int]@,
            ));
        }
        assert(self.browser_entries@.take(self.browser_entries.len() as int)
            == self.browser_entries@);
        let session = match &self.reader_session {
            Some(s) => Some(s.duplicate()),
            None => None,
        };
        AppShell {
            screen: self.screen,
            home_selected: self.home_selected,
            browser_path: string_from(self.browser_path.as_str()),
            browser_selected: self.browser_selected,
            browser_entries: entries,
            reader_session: session,
        }
    }
}

impl Default for AppShell {
    fn default() -> (r: AppShell)
        ensures
            r@ == initial_shell(),
    {
        AppShell::new()
    }
}

} // verus!
