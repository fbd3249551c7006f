//! The messages that clients and servers exchange above the packet layer,
//! and the commands and events that pass between the client and the
//! simulation controller.

use vstd::prelude::*;
use crate::markup::{pair_views, texts};
use crate::packet::{NodeId, Packet, PacketView};

verus! {

/// What a server serves.
#[derive(Clone, Copy, Debug, PartialEq, Eq, Structural)]
pub enum ServerType {
    Chat,
    Text,
    Media,
}

/// What a client asks of a server.
#[derive(Debug, PartialEq, Eq)]
pub enum ClientMessage {
    GetServerType,
    GetFilesList,
    GetFile(String),
    GetMedia(String),
}

pub enum ClientMessageView {
    GetServerType,
    GetFilesList,
    GetFile(Seq<char>),
    GetMedia(Seq<char>),
}

impl View for ClientMessage {
    type V = ClientMessageView;

    open spec fn view(&self) -> ClientMessageView {
        match self {
            ClientMessage::GetServerType => ClientMessageView::GetServerType,
            ClientMessage::GetFilesList => ClientMessageView::GetFilesList,
            ClientMessage::GetFile(id) => ClientMessageView::GetFile(id@),
            ClientMessage::GetMedia(id) => ClientMessageView::GetMedia(id@),
        }
    }
}

impl Clone for ClientMessage {
    fn clone(&self) -> (res: Self)
        ensures
            res@ == self@,
    {
        match self {
            ClientMessage::GetServerType => ClientMessage::GetServerType,
            ClientMessage::GetFilesList => ClientMessage::GetFilesList,
            ClientMessage::GetFile(id) => ClientMessage::GetFile(id.clone()),
            ClientMessage::GetMedia(id) => ClientMessage::GetMedia(id.clone()),
        }
    }
}

/// What a server answers.
#[derive(Debug, PartialEq, Eq)]
pub enum ServerMessage {
    ServerType(ServerType),
    FilesList(Vec<String>),
    File { file_id: String, size: usize, content: String },
    Media(String, String),
}

pub enum ServerMessageView {
    ServerType(ServerType),
    FilesList(Seq<Seq<char>>),
    File { file_id: Seq<char>, size: usize, content: Seq<char> },
    Media(Seq<char>, Seq<char>),
}

impl View for ServerMessage {
    type V = ServerMessageView;

    open spec fn view(&self) -> ServerMessageView {
        match self {
            ServerMessage::ServerType(kind) => ServerMessageView::ServerType(*kind),
            ServerMessage::FilesList(ids) => ServerMessageView::FilesList(texts(ids@)),
            ServerMessage::File { file_id, size, content } => ServerMessageView::File {
                file_id: file_id@,
                size: *size,
                content: content@,
            },
            ServerMessage::Media(id, content) => ServerMessageView::Media(id@, content@),
        }
    }
}

#[derive(Debug, PartialEq, Eq)]
pub enum MessageContent {
    FromClient(ClientMessage),
    FromServer(ServerMessage),
}

pub enum MessageContentView {
    FromClient(ClientMessageView),
    FromServer(ServerMessageView),
}

impl View for MessageContent {
    type V = MessageContentView;

    open spec fn view(&self) -> MessageContentView {
        match self {
            MessageContent::FromClient(m) => MessageContentView::FromClient(m@),
            MessageContent::FromServer(m) => MessageContentView::FromServer(m@),
        }
    }
}

/// One message of the application layer.
#[derive(Debug, PartialEq, Eq)]
pub struct Message {
    pub session_id: u64,
    pub source_id: NodeId,
    pub destination_id: NodeId,
    pub content: MessageContent,
}

pub struct MessageView {
    pub session_id: u64,
    pub source_id: NodeId,
    pub destination_id: NodeId,
    pub content: MessageContentView,
}

impl View for Message {
    type V = MessageView;

    open spec fn view(&self) -> MessageView {
        MessageView {
            session_id: self.session_id,
            source_id: self.source_id,
            destination_id: self.destination_id,
            content: self.content@,
        }
    }
}

impl Message {
    pub fn new_client_message(
        session_id: u64,
        source_id: NodeId,
        destination_id: NodeId,
        content: ClientMessage,
    ) -> (res: Self)
        ensures
            res@ == (MessageView {
                session_id,
                source_id,
                destination_id,
                content: MessageContentView::FromClient(content@),
            }),
    {
        Message { session_id, source_id, destination_id, content: MessageContent::FromClient(content) }
    }

    pub fn new_server_message(
        session_id: u64,
        source_id: NodeId,
        destination_id: NodeId,
        content: ServerMessage,
    ) -> (res: Self)
        ensures
            res@ == (MessageView {
                session_id,
                source_id,
                destination_id,
                content: MessageContentView::FromServer(content@),
            }),
    {
        Message { session_id, source_id, destination_id, content: MessageContent::FromServer(content) }
    }
}

/// What the simulation controller tells the client to do. The channel that
/// comes with a new sender stays with the caller, who owns the links.
#[derive(Debug, PartialEq, Eq)]
pub enum MediaClientCommand {
    InitFlooding,
    AddSender(NodeId),
    RemoveSender(NodeId),
    GetServerList,
    AskServerType(NodeId),
    AskFilesList(NodeId),
    AskForFile(NodeId, String),
}

pub enum MediaClientCommandView {
    InitFlooding,
    AddSender(NodeId),
    RemoveSender(NodeId),
    GetServerList,
    AskServerType(NodeId),
    AskFilesList(NodeId),
    AskForFile(NodeId, Seq<char>),
}

impl View for MediaClientCommand {
    type V = MediaClientCommandView;

    open spec fn view(&self) -> MediaClientCommandView {
        match self {
            MediaClientCommand::InitFlooding => MediaClientCommandView::InitFlooding,
            MediaClientCommand::AddSender(id) => MediaClientCommandView::AddSender(*id),
            MediaClientCommand::RemoveSender(id) => MediaClientCommandView::RemoveSender(*id),
            MediaClientCommand::GetServerList => MediaClientCommandView::GetServerList,
            MediaClientCommand::AskServerType(id) => MediaClientCommandView::AskServerType(*id),
            MediaClientCommand::AskFilesList(id) => MediaClientCommandView::AskFilesList(*id),
            MediaClientCommand::AskForFile(id, file_id) => MediaClientCommandView::AskForFile(
                *id,
                file_id@,
            ),
        }
    }
}

/// What the client tells the simulation controller.
#[derive(Debug, PartialEq, Eq)]
pub enum MediaClientEvent {
    AddedSender(NodeId),
    RemovedSender(NodeId),
    ServerList(Vec<NodeId>),
    ReceivedServerType(NodeId, ServerType),
    /// The server that answered, this client, the files the server offers.
    ReceivedFileList(NodeId, NodeId, Vec<String>),
    UnreachableNode(NodeId),
    DestinationIsDrone,
    /// A nack named a fragment that is not in the cache: session, fragment.
    ErrorPacketCache(u64, u64),
    /// The link refused the packet.
    SendError(Packet),
    /// The packet is handed to the controller because its link is gone.
    ControllerShortcut(Packet),
    /// A text file with all the media it refers to: `(media_id, content)`.
    CompleteBundle {
        source_id: NodeId,
        file_id: String,
        content: String,
        media_content: Vec<(String, String)>,
    },
}

pub enum MediaClientEventView {
    AddedSender(NodeId),
    RemovedSender(NodeId),
    ServerList(Seq<NodeId>),
    ReceivedServerType(NodeId, ServerType),
    ReceivedFileList(NodeId, NodeId, Seq<Seq<char>>),
    UnreachableNode(NodeId),
    DestinationIsDrone,
    ErrorPacketCache(u64, u64),
    SendError(PacketView),
    ControllerShortcut(PacketView),
    CompleteBundle {
        source_id: NodeId,
        file_id: Seq<char>,
        content: Seq<char>,
        media_content: Seq<(Seq<char>, Seq<char>)>,
    },
}

impl View for MediaClientEvent {
    type V = MediaClientEventView;

    open spec fn view(&self) -> MediaClientEventView {
        match self {
            MediaClientEvent::AddedSender(id) => MediaClientEventView::AddedSender(*id),
            MediaClientEvent::RemovedSender(id) => MediaClientEventView::RemovedSender(*id),
            MediaClientEvent::ServerList(ids) => MediaClientEventView::ServerList(ids@),
            MediaClientEvent::ReceivedServerType(id, kind) => MediaClientEventView::ReceivedServerType(
                *id,
                *kind,
            ),
            MediaClientEvent::ReceivedFileList(src, me, ids) => MediaClientEventView::ReceivedFileList(
                *src,
                *me,
                texts(ids@),
            ),
            MediaClientEvent::UnreachableNode(id) => MediaClientEventView::UnreachableNode(*id),
            MediaClientEvent::DestinationIsDrone => MediaClientEventView::DestinationIsDrone,
            MediaClientEvent::ErrorPacketCache(s, f) => MediaClientEventView::ErrorPacketCache(*s, *f),
            MediaClientEvent::SendError(p) => MediaClientEventView::SendError(p@),
            MediaClientEvent::ControllerShortcut(p) => MediaClientEventView::ControllerShortcut(p@),
            MediaClientEvent::CompleteBundle {
                source_id,
                file_id,
                content,
                media_content,
            } => MediaClientEventView::CompleteBundle {
                source_id: *source_id,
                file_id: file_id@,
                content: content@,
                media_content: pair_views(media_content@),
            },
        }
    }
}

/// How long the client lets its first flood settle, in milliseconds.
pub const FIRST_SETTLE_MILLIS: u64 = 2000;

/// How long the client lets any later flood settle, in milliseconds.
pub const FLOOD_SETTLE_MILLIS: u64 = 10;

/// What the client asks its caller to do.
#[derive(Debug, PartialEq, Eq)]
pub enum Action {
    /// Put the packet on the link to the neighbour.
    Send { neighbour: NodeId, packet: Packet },
    /// Send the event to the simulation controller.
    Notify(MediaClientEvent),
    /// Wait so long for the answers to a flood to come in.
    Settle { millis: u64 },
}

pub enum ActionView {
    Send { neighbour: NodeId, packet: PacketView },
    Notify(MediaClientEventView),
    Settle { millis: u64 },
}

impl View for Action {
    type V = ActionView;

    open spec fn view(&self) -> ActionView {
        match self {
            Action::Send { neighbour, packet } => ActionView::Send {
                neighbour: *neighbour,
                packet: packet@,
            },
            Action::Notify(event) => ActionView::Notify(event@),
            Action::Settle { millis } => ActionView::Settle { millis: *millis },
        }
    }
}

/// The views of the actions, in order.
pub open spec fn action_views(actions: Seq<Action>) -> Seq<ActionView> {
    Seq::new(actions.len(), |i: int| actions[i]@)
}

} // verus!
