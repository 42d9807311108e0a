//! The part of the context state that outlives the client.

use crate::table::KeyText;
use crate::text::Text;
use vstd::prelude::*;

verus! {

/// The tab that was active.
#[derive(Clone, Debug, PartialEq, Eq)]
pub enum ClientContextSelection {
    Default,
    All,
    Named { name: String },
}

/// What a [`ClientContextSelection`] holds.
pub enum SavedSelection {
    Default,
    All,
    Named(Text),
}

impl DeepView for ClientContextSelection {
    type V = SavedSelection;

    open spec fn deep_view(&self) -> SavedSelection {
        match self {
            ClientContextSelection::Default => SavedSelection::Default,
            ClientContextSelection::All => SavedSelection::All,
            ClientContextSelection::Named { name } => SavedSelection::Named(name@),
        }
    }
}

/// The context that a server last confirmed for a workspace, and the boot that held it.
#[derive(Clone, Debug, PartialEq, Eq)]
pub struct ClientWorkspaceContext {
    pub endpoint: String,
    pub boot_id: String,
    pub workspace_id: String,
    pub context: String,
}

/// What a [`ClientWorkspaceContext`] holds.
pub struct SavedContext {
    pub endpoint: Text,
    pub boot_id: Text,
    pub workspace_id: Text,
    pub context: Text,
}

impl SavedContext {
    /// The key of the workspace.
    pub open spec fn key(self) -> KeyText {
        (self.endpoint, self.workspace_id)
    }
}

impl DeepView for ClientWorkspaceContext {
    type V = SavedContext;

    open spec fn deep_view(&self) -> SavedContext {
        SavedContext {
            endpoint: self.endpoint@,
            boot_id: self.boot_id@,
            workspace_id: self.workspace_id@,
            context: self.context@,
        }
    }
}

/// Saved contexts. The value by default stands for a state with nothing to save.
#[derive(Clone, Debug, PartialEq, Eq, Default)]
pub struct ClientContextPreferences {
    pub active: Option<ClientContextSelection>,
    pub known: Vec<String>,
    pub workspaces: Vec<ClientWorkspaceContext>,
}

/// What [`ClientContextPreferences`] hold.
pub struct SavedContexts {
    pub active: Option<SavedSelection>,
    pub known: Seq<Text>,
    pub workspaces: Seq<SavedContext>,
}

impl DeepView for ClientContextPreferences {
    type V = SavedContexts;

    open spec fn deep_view(&self) -> SavedContexts {
        SavedContexts {
            active: self.active.deep_view(),
            known: self.known.deep_view(),
            workspaces: self.workspaces.deep_view(),
        }
    }
}

} // verus!
