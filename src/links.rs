use vstd::prelude::*;
use crate::chat::ChatMessage;

verus! {

/// Mode a chat runs in.
#[allow(non_camel_case_types)]
#[derive(PartialEq, Eq, Structural, Clone, Copy, Debug)]
pub enum ChatMode {
    NO_TOOLS,
    EXPLORE,
    AGENT,
    CONFIGURE,
    PROJECT_SUMMARY,
}

/// What the client sends about a chat.
#[derive(Clone, Debug)]
pub struct ChatMeta {
    pub chat_id: String,
    pub chat_mode: ChatMode,
}

/// A request for the follow-up links of a chat.
#[derive(Clone, Debug)]
pub struct LinksPost {
    pub messages: Vec<ChatMessage>,
    pub model_name: String,
    pub meta: ChatMeta,
}

/// What following a link does.
#[derive(PartialEq, Eq, Structural, Clone, Copy, Debug)]
pub enum LinkAction {
    PatchAll,
    FollowUp,
    Commit,
    Goto,
    SummarizeProject,
}

/// A link offered under a chat.
#[derive(Clone, Debug)]
pub struct Link {
    pub action: LinkAction,
    pub text: String,
    pub goto: Option<String>,
    pub current_config_file: Option<String>,
    pub link_tooltip: String,
}

/// A project with changes, and a commit message for them.
#[derive(Clone, Debug)]
pub struct ProjectCommit {
    pub path: String,
    pub commit_message: String,
}

} // verus!
