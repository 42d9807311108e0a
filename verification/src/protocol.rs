//! What the client knows of its endpoints, and what an endpoint shows of its workspaces.

use crate::text::{same, Text};
use vstd::prelude::*;

verus! {

/// Id of a saved SSH profile.
#[derive(Debug, PartialEq, Eq)]
pub struct ProfileId {
    pub id: String,
}

/// An endpoint that the client is connected to.
#[derive(Debug, PartialEq, Eq)]
pub enum ClientEndpointId {
    Local,
    Ssh(ProfileId),
}

/// What a [`ClientEndpointId`] holds.
pub enum EndpointText {
    Local,
    Ssh(Text),
}

impl DeepView for ClientEndpointId {
    type V = EndpointText;

    open spec fn deep_view(&self) -> EndpointText {
        match self {
            ClientEndpointId::Local => EndpointText::Local,
            ClientEndpointId::Ssh(profile) => EndpointText::Ssh(profile.id@),
        }
    }
}

impl EndpointText {
    /// The key under which the state of the endpoint's workspaces is kept.
    pub open spec fn storage_key(self) -> Text {
        match self {
            EndpointText::Local => "local"@,
            EndpointText::Ssh(id) => "ssh:"@ + id,
        }
    }
}

/// The local endpoint is kept under its own word, and a remote one under the id of its profile behind
/// a prefix of four characters.
pub proof fn law_storage_keys(id: Text)
    ensures
        EndpointText::Local.storage_key() == seq!['l', 'o', 'c', 'a', 'l'],
        EndpointText::Ssh(id).storage_key() == seq!['s', 's', 'h', ':'] + id,
{
    reveal_strlit("local");
    reveal_strlit("ssh:");
    assert("local"@ =~= seq!['l', 'o', 'c', 'a', 'l']);
    assert("ssh:"@ =~= seq!['s', 's', 'h', ':']);
}

/// Different endpoints have different storage keys.
pub proof fn lemma_storage_key_injective(a: EndpointText, b: EndpointText)
    ensures
        a.storage_key() == b.storage_key() ==> a == b,
{
    reveal_strlit("local");
    reveal_strlit("ssh:");
    assert("local"@[0] == 'l');
    match (a, b) {
        (EndpointText::Ssh(x), EndpointText::Ssh(y)) => {
            if a.storage_key() == b.storage_key() {
                assert(x =~= a.storage_key().skip(4));
                assert(y =~= b.storage_key().skip(4));
            }
        },
        (EndpointText::Local, EndpointText::Ssh(y)) => {
            assert(b.storage_key()[0] == 's');
        },
        (EndpointText::Ssh(x), EndpointText::Local) => {
            assert(a.storage_key()[0] == 's');
        },
        _ => {},
    }
}

impl Clone for ProfileId {
    fn clone(&self) -> (r: Self)
        ensures
            r == *self,
    {
        ProfileId { id: self.id.clone() }
    }
}

impl Clone for ClientEndpointId {
    fn clone(&self) -> (r: Self)
        ensures
            r == *self,
    {
        match self {
            ClientEndpointId::Local => ClientEndpointId::Local,
            ClientEndpointId::Ssh(profile) => ClientEndpointId::Ssh(profile.clone()),
        }
    }
}

impl ClientEndpointId {
    /// The key under which the state of the endpoint's workspaces is kept.
    pub fn storage_key(&self) -> (key: String)
        ensures
            key@ == self.deep_view().storage_key(),
    {
        match self {
            ClientEndpointId::Local => "local".to_owned(),
            ClientEndpointId::Ssh(profile) => "ssh:".to_owned().concat(profile.id.as_str()),
        }
    }

    /// Whether two ids name the same endpoint.
    pub fn same_endpoint(&self, other: &ClientEndpointId) -> (r: bool)
        ensures
            r == (self.deep_view() == other.deep_view()),
    {
        match (self, other) {
            (ClientEndpointId::Local, ClientEndpointId::Local) => true,
            (ClientEndpointId::Ssh(a), ClientEndpointId::Ssh(b)) => same(
                a.id.as_str(),
                b.id.as_str(),
            ),
            _ => false,
        }
    }
}

/// One workspace as its endpoint shows it: its id, and its metadata tokens by name.
#[derive(Clone, Debug, PartialEq, Eq)]
pub struct ClientShellWorkspace {
    pub workspace_id: String,
    pub tokens: Vec<(String, String)>,
}

/// What a [`ClientShellWorkspace`] holds.
pub struct WorkspaceText {
    pub workspace_id: Text,
    pub tokens: Seq<(Text, Text)>,
}

impl DeepView for ClientShellWorkspace {
    type V = WorkspaceText;

    open spec fn deep_view(&self) -> WorkspaceText {
        WorkspaceText { workspace_id: self.workspace_id@, tokens: self.tokens.deep_view() }
    }
}

/// The workspaces of an endpoint at one time, and the boot of the server that reported them.
#[derive(Clone, Debug, PartialEq, Eq)]
pub struct ClientShellSnapshot {
    pub boot_id: String,
    pub workspaces: Vec<ClientShellWorkspace>,
}

/// What a [`ClientShellSnapshot`] holds.
pub struct SnapshotText {
    pub boot_id: Text,
    pub workspaces: Seq<WorkspaceText>,
}

impl DeepView for ClientShellSnapshot {
    type V = SnapshotText;

    open spec fn deep_view(&self) -> SnapshotText {
        SnapshotText { boot_id: self.boot_id@, workspaces: self.workspaces.deep_view() }
    }
}

impl SnapshotText {
    /// The snapshot shows a workspace with this id.
    pub open spec fn shows(self, workspace_id: Text) -> bool {
        exists|i: int|
            0 <= i < self.workspaces.len() && #[trigger] self.workspaces[i].workspace_id
                == workspace_id
    }

    /// No id occurs twice.
    pub open spec fn distinct(self) -> bool {
        forall|i: int, j: int|
            0 <= i < j < self.workspaces.len() ==> #[trigger] self.workspaces[i].workspace_id
                != #[trigger] self.workspaces[j].workspace_id
    }
}

impl ClientShellSnapshot {
    /// Whether the snapshot shows a workspace with this id.
    pub fn shows(&self, workspace_id: &str) -> (r: bool)
        ensures
            r == self.deep_view().shows(workspace_id@),
    {
        for i in 0..self.workspaces.len()
            invariant
                forall|j: int|
                    0 <= j < i ==> #[trigger] self.deep_view().workspaces[j].workspace_id
                        != workspace_id@,
        {
            let found = same(self.workspaces[i].workspace_id.as_str(), workspace_id);
            proof {
                assert(self.deep_view().workspaces[i as int].workspace_id
                    == self.workspaces@[i as int].workspace_id@);
            }
            if found {
                return true;
            }
        }
        false
    }
}

} // verus!
