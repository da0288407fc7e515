//! How blame is drawn.

use crate::commits::ParsedCommitMessage;
use crate::entry::BlameEntry;
use std::marker::PhantomData;
use vstd::prelude::*;

verus! {

/// The types of the user interface that blame is drawn in.
pub trait BlameUi {
    type TextStyle;

    type AnyElement;

    type Repository;

    type Workspace;

    type Editor;

    type Hsla;

    type ScrollHandle;

    type Markdown;

    type Window;

    type App;
}

/// Draws blame in a user interface.
pub trait BlameRenderer {
    type Ui: BlameUi;

    /// How much of an author's name is drawn at most.
    fn max_author_length(&self) -> usize;

    /// Draws the blame of a row, beside the row.
    fn render_blame_entry(
        &self,
        style: &<Self::Ui as BlameUi>::TextStyle,
        entry: BlameEntry,
        details: Option<ParsedCommitMessage>,
        repository: <Self::Ui as BlameUi>::Repository,
        workspace: <Self::Ui as BlameUi>::Workspace,
        editor: <Self::Ui as BlameUi>::Editor,
        index: usize,
        color: <Self::Ui as BlameUi>::Hsla,
        cx: &mut <Self::Ui as BlameUi>::App,
    ) -> Option<<Self::Ui as BlameUi>::AnyElement>;

    /// Draws the blame of a row, behind its text.
    fn render_inline_blame_entry(
        &self,
        style: &<Self::Ui as BlameUi>::TextStyle,
        entry: BlameEntry,
        cx: &mut <Self::Ui as BlameUi>::App,
    ) -> Option<<Self::Ui as BlameUi>::AnyElement>;

    /// Draws what is known of a commit.
    fn render_blame_entry_popover(
        &self,
        entry: BlameEntry,
        scroll: <Self::Ui as BlameUi>::ScrollHandle,
        details: Option<ParsedCommitMessage>,
        markdown: <Self::Ui as BlameUi>::Markdown,
        repository: <Self::Ui as BlameUi>::Repository,
        workspace: <Self::Ui as BlameUi>::Workspace,
        window: &mut <Self::Ui as BlameUi>::Window,
        cx: &mut <Self::Ui as BlameUi>::App,
    ) -> Option<<Self::Ui as BlameUi>::AnyElement>;

    /// Shows the commit that a row is blamed on.
    fn open_blame_commit(
        &self,
        entry: BlameEntry,
        repository: <Self::Ui as BlameUi>::Repository,
        workspace: <Self::Ui as BlameUi>::Workspace,
        window: &mut <Self::Ui as BlameUi>::Window,
        cx: &mut <Self::Ui as BlameUi>::App,
    );
}

/// Draws nothing.
pub struct BlankRenderer<U> {
    pub ui: PhantomData<U>,
}

impl<U: BlameUi> BlameRenderer for BlankRenderer<U> {
    type Ui = U;

    fn max_author_length(&self) -> (length: usize)
        ensures
            length == 0,
    {
        0
    }

    fn render_blame_entry(
        &self,
        _style: &U::TextStyle,
        _entry: BlameEntry,
        _details: Option<ParsedCommitMessage>,
        _repository: U::Repository,
        _workspace: U::Workspace,
        _editor: U::Editor,
        _index: usize,
        _color: U::Hsla,
        _cx: &mut U::App,
    ) -> (element: Option<U::AnyElement>)
        ensures
            element is None,
            *final(_cx) == *old(_cx),
    {
        None
    }

    fn render_inline_blame_entry(
        &self,
        _style: &U::TextStyle,
        _entry: BlameEntry,
        _cx: &mut U::App,
    ) -> (element: Option<U::AnyElement>)
        ensures
            element is None,
            *final(_cx) == *old(_cx),
    {
        None
    }

    fn render_blame_entry_popover(
        &self,
        _entry: BlameEntry,
        _scroll: U::ScrollHandle,
        _details: Option<ParsedCommitMessage>,
        _markdown: U::Markdown,
        _repository: U::Repository,
        _workspace: U::Workspace,
        _window: &mut U::Window,
        _cx: &mut U::App,
    ) -> (element: Option<U::AnyElement>)
        ensures
            element is None,
            *final(_window) == *old(_window),
            *final(_cx) == *old(_cx),
    {
        None
    }

    fn open_blame_commit(
        &self,
        _entry: BlameEntry,
        _repository: U::Repository,
        _workspace: U::Workspace,
        _window: &mut U::Window,
        _cx: &mut U::App,
    )
        ensures
            *final(_window) == *old(_window),
            *final(_cx) == *old(_cx),
    {
    }
}

} // verus!
