//! Which action a key press asks for, on each screen.

use vstd::prelude::*;
use crate::app::{Action, AppState, AppView, Screen};

verus! {

/// The keys that the viewer tells apart.
pub enum Key {
    Char(char),
    Esc,
    Enter,
    Backspace,
    Up,
    Down,
    Other,
}

/// A key press: the key, and whether Control was held.
pub struct KeyPress {
    pub code: Key,
    pub control: bool,
}

/// The action for `key` in state `app`.
///
/// While a search is typed: Esc cancels it, Enter submits it, Backspace
/// deletes the last character, a character typed without Control is added,
/// and every other key does nothing.
///
/// Otherwise: `q` quits; Esc clears the current screen's search (or
/// filter) when one is set, else goes back like `b` (to the aggregates
/// from their spans, else to the trace list); Enter opens what is
/// selected; `a` shows the aggregates; `/` starts a search and `f` a
/// filter; `r` refreshes; Down/`j` and Up/`k` move the selection (the span
/// selection on the trace detail); every other key does nothing.
pub open spec fn action_for(key: KeyPress, app: AppView) -> Action {
    if app.search_active {
        match key.code {
            Key::Esc => Action::CancelSearch,
            Key::Enter => Action::SubmitSearch,
            Key::Backspace => Action::SearchBackspace,
            Key::Char(c) => if !key.control {
                Action::SearchPush(c)
            } else {
                Action::Noop
            },
            _ => Action::Noop,
        }
    } else {
        match key.code {
            Key::Char('q') => Action::Quit,
            Key::Esc => if app.has_current_screen_search() {
                Action::ClearSearch
            } else {
                back_from(app.screen)
            },
            Key::Char('b') => back_from(app.screen),
            Key::Enter => match app.screen {
                Screen::TraceList => Action::ShowTraceDetail,
                Screen::Aggregates => Action::ShowAggregateSpans,
                Screen::AggregateSpans => Action::OpenAggregateSpanTrace,
                Screen::TraceDetail => Action::Noop,
            },
            Key::Char('a') => Action::ShowAggregates,
            Key::Char('/') => Action::StartSearch,
            Key::Char('f') => Action::StartFilter,
            Key::Char('r') => Action::RefreshCurrentScreen,
            Key::Down | Key::Char('j') => match app.screen {
                Screen::TraceDetail => Action::MoveSpanDown,
                _ => Action::MoveSelectionDown,
            },
            Key::Up | Key::Char('k') => match app.screen {
                Screen::TraceDetail => Action::MoveSpanUp,
                _ => Action::MoveSelectionUp,
            },
            _ => Action::Noop,
        }
    }
}

/// Going back: from the spans of an aggregate to the aggregates, from any
/// other screen to the trace list.
pub open spec fn back_from(screen: Screen) -> Action {
    match screen {
        Screen::AggregateSpans => Action::ShowAggregates,
        _ => Action::ShowTraceList,
    }
}

/// The action that a key press asks for (see `action_for`).
pub fn map_key(key: KeyPress, app: &AppState) -> (action: Action)
    ensures
        action == action_for(key, app@),
{
    if app.search.active {
        return match key.code {
            Key::Esc => Action::CancelSearch,
            Key::Enter => Action::SubmitSearch,
            Key::Backspace => Action::SearchBackspace,
            Key::Char(c) => if !key.control {
                Action::SearchPush(c)
            } else {
                Action::Noop
            },
            _ => Action::Noop,
        };
    }
    let back = match app.screen {
        Screen::AggregateSpans => Action::ShowAggregates,
        _ => Action::ShowTraceList,
    };
    match key.code {
        Key::Char('q') => Action::Quit,
        Key::Esc => if app.has_current_screen_search() {
            Action::ClearSearch
        } else {
            back
        },
        Key::Char('b') => back,
        Key::Enter => match app.screen {
            Screen::TraceList => Action::ShowTraceDetail,
            Screen::Aggregates => Action::ShowAggregateSpans,
            Screen::AggregateSpans => Action::OpenAggregateSpanTrace,
            Screen::TraceDetail => Action::Noop,
        },
        Key::Char('a') => Action::ShowAggregates,
        Key::Char('/') => Action::StartSearch,
        Key::Char('f') => Action::StartFilter,
        Key::Char('r') => Action::RefreshCurrentScreen,
        Key::Down | Key::Char('j') => match app.screen {
            Screen::TraceDetail => Action::MoveSpanDown,
            _ => Action::MoveSelectionDown,
        },
        Key::Up | Key::Char('k') => match app.screen {
            Screen::TraceDetail => Action::MoveSpanUp,
            _ => Action::MoveSelectionUp,
        },
        _ => Action::Noop,
    }
}

} // verus!
