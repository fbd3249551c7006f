//! What the client does when the simulation controller tells it to.

use vstd::prelude::*;
use crate::media_client::{insert_id, remove_id, MediaClient};
use crate::message::{
    action_views, Action, ActionView, ClientMessage, MediaClientCommand, MediaClientEvent,
    FLOOD_SETTLE_MILLIS,
};
use crate::packet::NodeId;

verus! {

impl MediaClient {
    /// Handles one command and returns what is to be done.
    pub fn handle_command(&mut self, command: MediaClientCommand) -> (res: Vec<Action>)
        requires
            old(self).wf(),
        ensures
            final(self).wf(),
            final(self)@ == old(self)@.commanded(command@).0,
            action_views(res@) == old(self)@.commanded(command@).1,
    {
        let ghost none = Seq::<ActionView>::empty();
        let ghost c = command@;
        let mut out: Vec<Action> = Vec::new();
        assert(action_views(out@) =~= none);
        match command {
            MediaClientCommand::InitFlooding => {
                self.flood_network(FLOOD_SETTLE_MILLIS, &mut out);
                proof {
                    assert(none + old(self)@.flooded(FLOOD_SETTLE_MILLIS).1 =~= old(self)@.flooded(
                        FLOOD_SETTLE_MILLIS,
                    ).1);
                }
            },
            MediaClientCommand::RemoveSender(id) => {
                if remove_id(&mut self.packet_send, id) {
                    let action = self.send_controller(MediaClientEvent::RemovedSender(id));
                    out.push(action);
                    proof {
                        assert(action_views(out@) =~= seq![action@]);
                    }
                }
                self.router.remove_neighbour(id);
            },
            MediaClientCommand::AddSender(id) => {
                if insert_id(&mut self.packet_send, id) {
                    let action = self.send_controller(MediaClientEvent::AddedSender(id));
                    out.push(action);
                    proof {
                        assert(action_views(out@) =~= seq![action@]);
                    }
                }
                self.router.add_neighbour(id);
            },
            MediaClientCommand::GetServerList => {
                let server_list = self.router.get_server_list();
                let action = self.send_controller(MediaClientEvent::ServerList(server_list));
                out.push(action);
                proof {
                    assert(action_views(out@) =~= seq![action@]);
                }
                self.probe_servers(&mut out);
            },
            MediaClientCommand::AskServerType(id) => {
                self.handle_ask(id, ClientMessage::GetServerType, &mut out);
            },
            MediaClientCommand::AskFilesList(id) => {
                self.handle_ask(id, ClientMessage::GetFilesList, &mut out);
            },
            MediaClientCommand::AskForFile(id, file_id) => {
                self.handle_ask(id, ClientMessage::GetFile(file_id), &mut out);
            },
        }
        proof {
            let seen = old(self)@.commanded(c);
            assert(self@ == seen.0);
            assert(action_views(out@) =~= seen.1);
        }
        out
    }

    /// Sends `message` to `destination`: the message is cut into packets,
    /// each packet is stored and sent. Where no route leads to the
    /// destination the controller hears of it and nothing is sent.
    fn handle_ask(&mut self, destination: NodeId, message: ClientMessage, out: &mut Vec<Action>)
        requires
            old(self).wf(),
        ensures
            final(self).wf(),
            final(self)@ == old(self)@.asked(destination, message@).0,
            action_views(final(out)@) == action_views(old(out)@) + old(self)@.asked(
                destination,
                message@,
            ).1,
    {
        let ghost start = action_views(out@);
        match self.router.get_source_routing_header(destination) {
            Ok(header) => {
                self.dispatch(message, &header, out);
            },
            Err(_) => {
                let action = self.send_controller(MediaClientEvent::UnreachableNode(destination));
                out.push(action);
                proof {
                    assert(action_views(out@) =~= start + seq![action@]);
                }
            },
        }
    }
}

} // verus!
