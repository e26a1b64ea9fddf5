//! The state of an interactive session and its transitions.
//!
//! A session owns the statistics, the rows of the current view and the
//! selection. Every change of sort or view rebuilds the rows from the
//! statistics and brings the selection back into the list.

use vstd::prelude::*;
use crate::builder::build_display_rows;
use crate::builder::display_rows;
use crate::rows::DisplayRow;
use crate::rows::RowView;
use crate::rows::SortField;
use crate::rows::ViewMode;
use crate::stats::bandwidth_in;
use crate::stats::requests_in;
use crate::stats::totals_fit;
use crate::stats::Group;
use crate::stats::PathStats;
use crate::stats::StatView;

verus! {

/// A key press, as far as the session tells keys apart.
#[derive(Clone, Copy, Debug, PartialEq, Eq, Structural)]
pub enum Key {
    Char(char),
    Esc,
    Up,
    Down,
    Left,
    Right,
    Tab,
    Enter,
    Other,
}

/// What the caller is to do after a key press.
#[derive(Clone, Debug)]
pub enum Action {
    /// Go on with the session.
    Stay,
    /// End the session.
    Quit,
    /// Open the URL of the selected row, then go on.
    Open(String),
}

/// The mathematical value of an `Action`.
pub enum ActionView {
    Stay,
    Quit,
    Open(Seq<char>),
}

impl View for Action {
    type V = ActionView;

    open spec fn view(&self) -> ActionView {
        match self {
            Action::Stay => ActionView::Stay,
            Action::Quit => ActionView::Quit,
            Action::Open(url) => ActionView::Open(url@),
        }
    }
}

/// An interactive session.
pub struct App {
    base_items: Vec<PathStats>,
    items: Vec<DisplayRow>,
    sort_field: SortField,
    descending: bool,
    selected: Option<usize>,
    view_mode: ViewMode,
}

/// The mathematical value of a session.
pub struct AppView {
    pub base: Seq<StatView>,
    pub items: Seq<RowView>,
    pub sort_field: SortField,
    pub descending: bool,
    pub selected: Option<usize>,
    pub view_mode: ViewMode,
}

/// The direction that a newly chosen sort field starts with: descending, but
/// ascending for the path and the extension.
pub open spec fn default_descending(field: SortField) -> bool {
    field != SortField::Path && field != SortField::Ext
}

/// The selection brought into a list of `len` rows: kept where it is inside,
/// none in an empty list, else the last row.
pub open spec fn clamp(selected: Option<usize>, len: nat) -> Option<usize> {
    match selected {
        Some(index) if index < len => Some(index),
        _ => if len == 0 {
            None
        } else {
            Some((len - 1) as usize)
        },
    }
}

/// The session with its rows built anew and the selection brought into them.
pub open spec fn rebuilt(state: AppView) -> AppView {
    let items = display_rows(state.base, state.view_mode, state.sort_field, state.descending);
    AppView { items, selected: clamp(state.selected, items.len()), ..state }
}

/// The session after a sort field was chosen: the direction flips where the
/// field is the current one, else the field starts in its default direction.
pub open spec fn after_set_sort(state: AppView, field: SortField) -> AppView {
    if state.sort_field == field {
        rebuilt(AppView { descending: !state.descending, ..state })
    } else {
        rebuilt(AppView { sort_field: field, descending: default_descending(field), ..state })
    }
}

/// The session in the other view.
pub open spec fn after_toggle_view(state: AppView) -> AppView {
    rebuilt(
        AppView {
            view_mode: match state.view_mode {
                ViewMode::Path => ViewMode::Type,
                ViewMode::Type => ViewMode::Path,
            },
            ..state
        },
    )
}

/// The session in the second view, the grouped one.
pub open spec fn after_next_view(state: AppView) -> AppView {
    if state.view_mode == ViewMode::Path {
        after_toggle_view(state)
    } else {
        state
    }
}

/// The session in the first view, the flat one.
pub open spec fn after_previous_view(state: AppView) -> AppView {
    if state.view_mode == ViewMode::Type {
        after_toggle_view(state)
    } else {
        state
    }
}

/// The session with the selection one row down, at most on the last row.
pub open spec fn after_next(state: AppView) -> AppView {
    if state.items.len() == 0 {
        state
    } else {
        AppView {
            selected: match state.selected {
                Some(index) if index + 1 < state.items.len() => Some((index + 1) as usize),
                _ => Some((state.items.len() - 1) as usize),
            },
            ..state
        }
    }
}

/// The session with the selection one row up, at least on the first row.
pub open spec fn after_previous(state: AppView) -> AppView {
    if state.items.len() == 0 {
        state
    } else {
        AppView {
            selected: match state.selected {
                Some(index) if index > 0 => Some((index - 1) as usize),
                _ => Some(0),
            },
            ..state
        }
    }
}

/// What the selected row asks to open.
pub open spec fn activated(state: AppView) -> ActionView {
    match state.selected {
        Some(index) if index < state.items.len() => match state.items[index as int].open_url {
            Some(url) => ActionView::Open(url),
            None => ActionView::Stay,
        },
        _ => ActionView::Stay,
    }
}

/// The session after a key press, and what the caller is to do.
pub open spec fn step(state: AppView, key: Key) -> (AppView, ActionView) {
    match key {
        Key::Esc => (state, ActionView::Quit),
        Key::Up => (after_previous(state), ActionView::Stay),
        Key::Down => (after_next(state), ActionView::Stay),
        Key::Left => (after_previous_view(state), ActionView::Stay),
        Key::Right => (after_next_view(state), ActionView::Stay),
        Key::Tab => (after_toggle_view(state), ActionView::Stay),
        Key::Enter => (state, activated(state)),
        Key::Other => (state, ActionView::Stay),
        Key::Char(c) => if c == 'q' {
            (state, ActionView::Quit)
        } else if c == 'k' {
            (after_previous(state), ActionView::Stay)
        } else if c == 'j' {
            (after_next(state), ActionView::Stay)
        } else if c == 'h' {
            (after_previous_view(state), ActionView::Stay)
        } else if c == 'l' {
            (after_next_view(state), ActionView::Stay)
        } else if c == 'r' {
            (after_set_sort(state, SortField::Requests), ActionView::Stay)
        } else if c == 's' {
            (after_set_sort(state, SortField::AvgRequestSize), ActionView::Stay)
        } else if c == 'b' {
            (after_set_sort(state, SortField::Bandwidth), ActionView::Stay)
        } else if c == 'd' {
            (after_set_sort(state, SortField::Path), ActionView::Stay)
        } else if c == 'e' {
            (after_set_sort(state, SortField::Ext), ActionView::Stay)
        } else {
            (state, ActionView::Stay)
        },
    }
}

/// A session is consistent where the totals can be held, the rows are those of
/// the current view and sort, and a selection exists exactly where there are
/// rows, inside them.
pub open spec fn consistent(state: AppView) -> bool {
    &&& totals_fit(state.base)
    &&& state.items == display_rows(state.base, state.view_mode, state.sort_field, state.descending)
    &&& match state.selected {
        Some(index) => index < state.items.len(),
        None => state.items.len() == 0,
    }
}

/// Whether the rows of every view and sort can be indexed by a `usize`.
pub open spec fn rows_fit(base: Seq<StatView>) -> bool {
    forall|view_mode: ViewMode, field: SortField, descending: bool|
        #[trigger] display_rows(base, view_mode, field, descending).len() <= usize::MAX
}

/// Whenever the rows are built anew, a selection beyond the new list moves to
/// its last row, a selection inside it stays, and an empty list has none.
pub proof fn law_selection_is_clamped(state: AppView)
    requires
        rows_fit(state.base),
    ensures
        ({
            let rows = rebuilt(state).items.len();
            &&& rows == 0 ==> rebuilt(state).selected is None
            &&& state.selected matches Some(index) ==> (index >= rows && rows > 0 ==> rebuilt(
                state,
            ).selected == Some((rows - 1) as usize))
            &&& state.selected matches Some(index) ==> (index < rows ==> rebuilt(state).selected == Some(
                index,
            ))
            &&& rebuilt(state).selected matches Some(index) ==> index < rows
        }),
{
    assert(display_rows(state.base, state.view_mode, state.sort_field, state.descending).len()
        <= usize::MAX);
}

/// Building the rows anew gives a consistent session over the same statistics.
proof fn lemma_rebuilt_is_consistent(state: AppView)
    requires
        totals_fit(state.base),
        rows_fit(state.base),
    ensures
        consistent(rebuilt(state)),
        rebuilt(state).base == state.base,
{
    law_selection_is_clamped(state);
}

/// No key changes the statistics, and with them the totals; and every key
/// leaves a consistent session consistent.
pub proof fn law_keys_keep_statistics(state: AppView, key: Key)
    requires
        consistent(state),
        rows_fit(state.base),
    ensures
        step(state, key).0.base == state.base,
        requests_in(step(state, key).0.base, Group::All) == requests_in(state.base, Group::All),
        bandwidth_in(step(state, key).0.base, Group::All) == bandwidth_in(state.base, Group::All),
        consistent(step(state, key).0),
{
    lemma_set_sort_is_consistent(state, SortField::Path);
    lemma_set_sort_is_consistent(state, SortField::Ext);
    lemma_set_sort_is_consistent(state, SortField::Requests);
    lemma_set_sort_is_consistent(state, SortField::AvgRequestSize);
    lemma_set_sort_is_consistent(state, SortField::Bandwidth);
    lemma_toggle_view_is_consistent(state);
}

/// Choosing a sort field leaves a consistent session consistent.
proof fn lemma_set_sort_is_consistent(state: AppView, field: SortField)
    requires
        consistent(state),
        rows_fit(state.base),
    ensures
        consistent(after_set_sort(state, field)),
        after_set_sort(state, field).base == state.base,
{
    lemma_rebuilt_is_consistent(AppView { descending: !state.descending, ..state });
    lemma_rebuilt_is_consistent(
        AppView { sort_field: field, descending: default_descending(field), ..state },
    );
}

/// Switching the view leaves a consistent session consistent.
proof fn lemma_toggle_view_is_consistent(state: AppView)
    requires
        consistent(state),
        rows_fit(state.base),
    ensures
        consistent(after_toggle_view(state)),
        after_toggle_view(state).base == state.base,
{
    lemma_rebuilt_is_consistent(AppView { view_mode: ViewMode::Type, ..state });
    lemma_rebuilt_is_consistent(AppView { view_mode: ViewMode::Path, ..state });
}

/// The selection brought into a list of `len` rows.
pub fn clamp_selection(selected: Option<usize>, len: usize) -> (clamped: Option<usize>)
    ensures
        clamped == clamp(selected, len as nat),
        clamped matches Some(index) ==> index < len,
        len == 0 ==> clamped is None,
        selected matches Some(index) ==> (index >= len && len > 0 ==> clamped == Some((len - 1) as usize)),
{
    match selected {
        Some(index) if index < len => Some(index),
        _ => if len == 0 {
            None
        } else {
            Some(len - 1)
        },
    }
}

impl View for App {
    type V = AppView;

    closed spec fn view(&self) -> AppView {
        AppView {
            base: self.base_items.deep_view(),
            items: self.items.deep_view(),
            sort_field: self.sort_field,
            descending: self.descending,
            selected: self.selected,
            view_mode: self.view_mode,
        }
    }
}

impl App {
    /// The session is consistent: the totals can be held, the rows are those of
    /// the current view and sort, and a selection exists exactly where there
    /// are rows, inside them.
    pub open spec fn wf(&self) -> bool {
        consistent(self@)
    }

    /// A session over the given statistics: the flat view, sorted by bandwidth,
    /// descending, with the first row selected where there is one.
    pub fn new(base_items: Vec<PathStats>) -> (app: App)
        requires
            totals_fit(base_items.deep_view()),
        ensures
            app.wf(),
            app@.base == base_items.deep_view(),
            app@.view_mode == ViewMode::Path,
            app@.sort_field == SortField::Bandwidth,
            app@.descending,
            app@.selected == if app@.items.len() > 0 {
                Some(0usize)
            } else {
                None
            },
    {
        let items = build_display_rows(&base_items, ViewMode::Path, SortField::Bandwidth, true);
        let selected = if items.len() > 0 {
            Some(0)
        } else {
            None
        };
        App {
            base_items,
            items,
            sort_field: SortField::Bandwidth,
            descending: true,
            selected,
            view_mode: ViewMode::Path,
        }
    }

    /// The statistics that the session shows.
    pub fn base_items(&self) -> (base: &Vec<PathStats>)
        ensures
            base.deep_view() == self@.base,
    {
        &self.base_items
    }

    /// The rows of the current view.
    pub fn items(&self) -> (items: &Vec<DisplayRow>)
        ensures
            items.deep_view() == self@.items,
    {
        &self.items
    }

    /// The current sort field.
    pub fn sort_field(&self) -> (field: SortField)
        ensures
            field == self@.sort_field,
    {
        self.sort_field
    }

    /// Whether the sort is descending.
    pub fn descending(&self) -> (descending: bool)
        ensures
            descending == self@.descending,
    {
        self.descending
    }

    /// The selected row.
    pub fn selected(&self) -> (selected: Option<usize>)
        ensures
            selected == self@.selected,
    {
        self.selected
    }

    /// The current view.
    pub fn view_mode(&self) -> (mode: ViewMode)
        ensures
            mode == self@.view_mode,
    {
        self.view_mode
    }

    /// Builds the rows of the current view and sort anew.
    pub fn rebuild_view(&mut self)
        requires
            totals_fit(old(self)@.base),
        ensures
            final(self)@ == (AppView {
                items: display_rows(
                    old(self)@.base,
                    old(self)@.view_mode,
                    old(self)@.sort_field,
                    old(self)@.descending,
                ),
                ..old(self)@
            }),
    {
        self.items = build_display_rows(&self.base_items, self.view_mode, self.sort_field, self.descending);
    }

    /// Brings the selection into the rows.
    pub fn clamp_selection(&mut self)
        ensures
            final(self)@ == (AppView {
                selected: clamp(old(self)@.selected, old(self)@.items.len()),
                ..old(self)@
            }),
    {
        self.selected = clamp_selection(self.selected, self.items.len());
    }

    /// Chooses a sort field: the current one flips its direction, another one
    /// starts in its default direction. The selection stays on its index, or
    /// moves to the last row where the list has become shorter.
    pub fn set_sort(&mut self, field: SortField)
        requires
            old(self).wf(),
        ensures
            final(self).wf(),
            final(self)@ == after_set_sort(old(self)@, field),
    {
        if self.sort_field == field {
            self.descending = !self.descending;
        } else {
            self.sort_field = field;
            self.descending = match field {
                SortField::Path => false,
                SortField::Ext => false,
                _ => true,
            };
        }
        self.rebuild_view();
        self.clamp_selection();
    }

    /// Switches to the other view. The selection stays on its index, or moves
    /// to the last row where the list has become shorter.
    pub fn toggle_view(&mut self)
        requires
            old(self).wf(),
        ensures
            final(self).wf(),
            final(self)@ == after_toggle_view(old(self)@),
    {
        self.view_mode = match self.view_mode {
            ViewMode::Path => ViewMode::Type,
            ViewMode::Type => ViewMode::Path,
        };
        self.rebuild_view();
        self.clamp_selection();
    }

    /// Switches to the grouped view; nothing changes in the grouped view.
    pub fn next_view(&mut self)
        requires
            old(self).wf(),
        ensures
            final(self).wf(),
            final(self)@ == after_next_view(old(self)@),
    {
        if self.view_mode == ViewMode::Path {
            self.toggle_view();
        }
    }

    /// Switches to the flat view; nothing changes in the flat view.
    pub fn previous_view(&mut self)
        requires
            old(self).wf(),
        ensures
            final(self).wf(),
            final(self)@ == after_previous_view(old(self)@),
    {
        if self.view_mode == ViewMode::Type {
            self.toggle_view();
        }
    }

    /// Moves the selection one row down; it stays on the last row.
    pub fn next(&mut self)
        requires
            old(self).wf(),
        ensures
            final(self).wf(),
            final(self)@ == after_next(old(self)@),
    {
        if self.items.len() == 0 {
            return;
        }
        let next = match self.selected {
            Some(index) if index < self.items.len() - 1 => index + 1,
            _ => self.items.len() - 1,
        };
        self.selected = Some(next);
    }

    /// Moves the selection one row up; it stays on the first row.
    pub fn previous(&mut self)
        requires
            old(self).wf(),
        ensures
            final(self).wf(),
            final(self)@ == after_previous(old(self)@),
    {
        if self.items.len() == 0 {
            return;
        }
        let previous = match self.selected {
            Some(index) if index > 0 => index - 1,
            _ => 0,
        };
        self.selected = Some(previous);
    }

    /// What the selected row asks to open: its URL, where it has one.
    pub fn activate(&self) -> (action: Action)
        ensures
            action@ == activated(self@),
    {
        match self.selected {
            Some(index) if index < self.items.len() => {
                proof {
                    assert(self.items.deep_view()[index as int] == self.items[index as int]@);
                }
                match &self.items[index].open_url {
                    Some(url) => Action::Open(url.clone()),
                    None => Action::Stay,
                }
            },
            _ => Action::Stay,
        }
    }
}

/// Applies a key press to the session and says what the caller is to do: quit
/// on `q` and Escape, open a URL on Enter where the selected row has one, and
/// go on otherwise.
pub fn handle_key(app: &mut App, key: Key) -> (action: Action)
    requires
        old(app).wf(),
    ensures
        final(app).wf(),
        (final(app)@, action@) == step(old(app)@, key),
        final(app)@.base == old(app)@.base,
{
    match key {
        Key::Esc => {
            return Action::Quit;
        },
        Key::Up => app.previous(),
        Key::Down => app.next(),
        Key::Left => app.previous_view(),
        Key::Right => app.next_view(),
        Key::Tab => app.toggle_view(),
        Key::Enter => {
            return app.activate();
        },
        Key::Other => {},
        Key::Char(c) => {
            if c == 'q' {
                return Action::Quit;
            } else if c == 'k' {
                app.previous();
            } else if c == 'j' {
                app.next();
            } else if c == 'h' {
                app.previous_view();
            } else if c == 'l' {
                app.next_view();
            } else if c == 'r' {
                app.set_sort(SortField::Requests);
            } else if c == 's' {
                app.set_sort(SortField::AvgRequestSize);
            } else if c == 'b' {
                app.set_sort(SortField::Bandwidth);
            } else if c == 'd' {
                app.set_sort(SortField::Path);
            } else if c == 'e' {
                app.set_sort(SortField::Ext);
            }
        },
    }
    Action::Stay
}

} // verus!
