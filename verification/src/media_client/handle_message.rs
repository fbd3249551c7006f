//! What the client does with a message that a server sent.

use vstd::prelude::*;
use crate::file_assembler::{found_keys, key_ids, AddedFileReturn};
use crate::markup::{key_views, pair_views, search_ref, FileKey};
use crate::media_client::{insert_id, sorted_snapshot, MediaClient};
use crate::message::{
    action_views, Action, ActionView, ClientMessage, ClientMessageView, MediaClientEvent, Message,
    MessageContent, ServerMessage, ServerType,
};
use crate::model::{fetch_items, file_refs, item_views, probe_items, round_robin};
use crate::packet::NodeId;

verus! {

impl MediaClient {
    /// Handles a message that was put together from its fragments. A file is
    /// searched for references to media first; where the parser has no
    /// document for it, the file is taken as one without references.
    pub fn handle_message(&mut self, message: Message) -> (res: Vec<Action>)
        requires
            old(self).wf(),
        ensures
            final(self).wf(),
            old(self)@.is_received(final(self)@, action_views(res@), message@, file_refs(message@))
                || old(self)@.is_received(
                final(self)@,
                action_views(res@),
                message@,
                Seq::empty(),
            ),
    {
        let found = match &message.content {
            MessageContent::FromServer(ServerMessage::File { file_id, size, content }) => search_ref(
                content.as_str(),
            ),
            _ => None,
        };
        proof {
            if found.is_some() {
                assert(key_ids(found_keys(found)) =~= file_refs(message@));
            } else {
                assert(key_ids(found_keys(found)) =~= Seq::<Seq<char>>::empty());
            }
        }
        self.handle_message_with(message, found)
    }

    /// Handles a message where the search of the file it brings for
    /// references to media gave `found`; for a message that brings no file
    /// `found` is not read.
    pub fn handle_message_with(&mut self, message: Message, found: Option<Vec<FileKey>>) -> (res:
        Vec<Action>)
        requires
            old(self).wf(),
        ensures
            final(self).wf(),
            final(self)@ == old(self)@.received_with(message@, key_ids(found_keys(found))).0,
            action_views(res@) == old(self)@.received_with(
                message@,
                key_ids(found_keys(found)),
            ).1,
    {
        let ghost refs = key_ids(found_keys(found));
        let mut out: Vec<Action> = Vec::new();
        let ghost none = Seq::<ActionView>::empty();
        assert(action_views(out@) =~= none);
        let ghost m = message@;
        let source_id = message.source_id;
        let content = match message.content {
            MessageContent::FromServer(content) => content,
            MessageContent::FromClient(_) => {
                return out;
            },
        };
        match content {
            ServerMessage::ServerType(server_type) => {
                match server_type {
                    ServerType::Media => {
                        insert_id(&mut self.media_server, source_id);
                    },
                    ServerType::Text | ServerType::Chat => (),
                }
                let action = self.send_controller(
                    MediaClientEvent::ReceivedServerType(source_id, server_type),
                );
                out.push(action);
                proof {
                    assert(action_views(out@) =~= seq![action@]);
                }
            },
            ServerMessage::FilesList(files_ids) => {
                let action = self.send_controller(
                    MediaClientEvent::ReceivedFileList(source_id, self.id, files_ids),
                );
                out.push(action);
                proof {
                    assert(action_views(out@) =~= seq![action@]);
                }
                self.probe_servers(&mut out);
            },
            ServerMessage::File { file_id, size, content } => {
                let copy = content.clone();
                match self.file_assembler.add_textfile_found(
                    source_id,
                    file_id.as_str(),
                    content,
                    size,
                    found,
                ) {
                    None => {
                        let action = self.send_controller(
                            MediaClientEvent::CompleteBundle {
                                source_id,
                                file_id,
                                content: copy,
                                media_content: Vec::new(),
                            },
                        );
                        out.push(action);
                        proof {
                            assert(action_views(out@) =~= seq![action@]);
                            assert(pair_views(Seq::<(String, String)>::empty()) =~= Seq::<
                                (Seq<char>, Seq<char>),
                            >::empty());
                        }
                    },
                    Some(media_ref) => {
                        let items = self.fetches(&media_ref, Ghost(refs));
                        self.dispatch_each(&items, &mut out);
                        proof {
                            assert(none + action_views(out@) =~= action_views(out@));
                        }
                    },
                }
            },
            ServerMessage::Media(media_id, content) => {
                match self.file_assembler.add_media_file(media_id.as_str(), content) {
                    Some(AddedFileReturn::CompleteFile {
                        source_id,
                        file_id,
                        content,
                        media_content,
                    }) => {
                        let action = self.send_controller(
                            MediaClientEvent::CompleteBundle {
                                source_id,
                                file_id,
                                content,
                                media_content,
                            },
                        );
                        out.push(action);
                        proof {
                            assert(action_views(out@) =~= seq![action@]);
                        }
                    },
                    _ => {},
                }
            },
        }
        proof {
            let seen = old(self)@.received_with(m, refs);
            assert(self@ == seen.0);
            assert(action_views(out@) =~= seen.1);
        }
        out
    }

    /// A request for each of the media, to the media servers in turn.
    fn fetches(&self, media_ref: &Vec<FileKey>, Ghost(refs): Ghost<Seq<Seq<char>>>) -> (res: Vec<
        (NodeId, ClientMessage),
    >)
        requires
            key_ids(key_views(media_ref@)) == refs,
        ensures
            item_views(res@) == fetch_items(self@.media_server, refs),
    {
        let mut items: Vec<(NodeId, ClientMessage)> = Vec::new();
        let servers = sorted_snapshot(&self.media_server);
        let count = servers.len();
        let mut k: usize = 0;
        proof {
            assert(key_views(media_ref@).len() == media_ref@.len());
            assert(key_ids(key_views(media_ref@)).len() == media_ref@.len());
        }
        while k < media_ref.len()
            invariant
                k <= media_ref@.len(),
                count == servers@.len(),
                servers@ == self@.media_server,
                media_ref@.len() == refs.len(),
                key_ids(key_views(media_ref@)) == refs,
                items@.len() == k,
                forall|j: int|
                    0 <= j < k ==> (#[trigger] items@[j]).0 == round_robin(self@.media_server, j)
                        && items@[j].1@ == ClientMessageView::GetMedia(refs[j]),
            decreases media_ref@.len() - k,
        {
            let destination: NodeId = if count == 0 {
                0
            } else {
                servers[k % count]
            };
            proof {
                assert(key_ids(key_views(media_ref@))[k as int] == media_ref@[k as int].1@);
            }
            items.push((destination, ClientMessage::GetMedia(media_ref[k].1.clone())));
            k = k + 1;
        }
        assert(item_views(items@) =~= fetch_items(self@.media_server, refs));
        items
    }

    /// Sends each item on a cheapest route to its destination; an item whose
    /// destination cannot be reached is passed over.
    pub(crate) fn dispatch_each(&mut self, items: &Vec<(NodeId, ClientMessage)>, out: &mut Vec<Action>)
        requires
            old(self).wf(),
        ensures
            final(self).wf(),
            final(self)@ == old(self)@.dispatched_many(item_views(items@)).0,
            action_views(final(out)@) == action_views(old(out)@) + old(self)@.dispatched_many(
                item_views(items@),
            ).1,
    {
        let ghost start = action_views(out@);
        let ghost views = item_views(items@);
        let mut i: usize = 0;
        proof {
            assert(views.take(0) =~= Seq::<(NodeId, ClientMessageView)>::empty());
            assert(start + Seq::<ActionView>::empty() =~= start);
        }
        while i < items.len()
            invariant
                i <= items@.len(),
                views == item_views(items@),
                self.wf(),
                self@.router == old(self)@.router,
                self@ == old(self)@.dispatched_many(views.take(i as int)).0,
                action_views(out@) == start + old(self)@.dispatched_many(views.take(i as int)).1,
            decreases items@.len() - i,
        {
            match self.router.get_source_routing_header(items[i].0) {
                Ok(header) => {
                    self.dispatch(items[i].1.clone(), &header, out);
                },
                Err(_) => {},
            }
            proof {
                let upto = views.take(i + 1);
                assert(upto.drop_last() =~= views.take(i as int));
                assert(upto.last() == views[i as int]);
                let next = old(self)@.dispatched_many(upto);
                assert(self@ == next.0);
                assert(action_views(out@) =~= start + next.1);
            }
            i = i + 1;
        }
        proof {
            assert(views.take(views.len() as int) =~= views);
        }
    }

    /// A request for its type to each server of the graph.
    fn probes(&self) -> (res: Vec<(NodeId, ClientMessage)>)
        requires
            self.wf(),
        ensures
            item_views(res@) == probe_items(self@.router),
    {
        let servers = self.router.get_server_list();
        let mut items: Vec<(NodeId, ClientMessage)> = Vec::new();
        let mut i: usize = 0;
        while i < servers.len()
            invariant
                i <= servers@.len(),
                items@.len() == i,
                forall|j: int|
                    0 <= j < i ==> (#[trigger] items@[j]).0 == servers@[j] && items@[j].1@
                        == ClientMessageView::GetServerType,
            decreases servers@.len() - i,
        {
            items.push((servers[i], ClientMessage::GetServerType));
            i = i + 1;
        }
        assert(item_views(items@) =~= probe_items(self@.router));
        items
    }

    /// Asks each server of the graph for its type.
    pub(crate) fn probe_servers(&mut self, out: &mut Vec<Action>)
        requires
            old(self).wf(),
        ensures
            final(self).wf(),
            final(self)@ == old(self)@.dispatched_many(probe_items(old(self)@.router)).0,
            action_views(final(out)@) == action_views(old(out)@) + old(self)@.dispatched_many(
                probe_items(old(self)@.router),
            ).1,
    {
        let items = self.probes();
        self.dispatch_each(&items, out);
    }

    /// Asks each server of the graph for its type, so that the media servers
    /// among them become known.
    pub fn ask_media_server(&mut self) -> (res: Vec<Action>)
        requires
            old(self).wf(),
        ensures
            final(self).wf(),
            final(self)@ == old(self)@.dispatched_many(probe_items(old(self)@.router)).0,
            action_views(res@) == old(self)@.dispatched_many(probe_items(old(self)@.router)).1,
    {
        let mut out: Vec<Action> = Vec::new();
        assert(action_views(out@) =~= Seq::<ActionView>::empty());
        self.probe_servers(&mut out);
        proof {
            let sent = old(self)@.dispatched_many(probe_items(old(self)@.router));
            assert(Seq::<ActionView>::empty() + sent.1 =~= sent.1);
        }
        out
    }
}

} // verus!
