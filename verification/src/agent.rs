//! Agent-side session rules.
//!
//! One agent owns a fixed identity for its lifetime. Its receive side
//! decodes `ServerPacket`s, keeps only the packets that target it (a packet
//! with no target name is a broadcast and targets everyone), and hands the
//! embedded commands out for the host application to run. Its send side
//! wraps locally produced events into `ClientPacket`s carrying the agent's
//! identity. Either side closes the whole session on its first error; the
//! host then reconnects with a fresh session.

use vstd::prelude::*;
use crate::messages::{
    ClientEvent, ClientPacket, ClientPacketView, ServerEvent, ServerEventView, ServerPacket,
    ServerPacketView,
};
use crate::buffer::{frames_all_decodable, spec_frames, spec_frames_rest, spec_payload_decodable, ReceiveBuffer};
use crate::codec::{
    client_packet_fits, spec_enc_client_packet, spec_frame, try_serialize, Message,
};

verus! {

/// Whether a packet addressed `name` is for the agent whose identity is
/// `identity`: an absent name is a broadcast, a present one must match.
pub open spec fn spec_targets(name: Option<Seq<char>>, identity: Seq<char>) -> bool {
    match name {
        None => true,
        Some(n) => n == identity,
    }
}

/// Target filtering: a packet naming one agent is acted on by exactly that
/// agent and silently dropped by every other; a broadcast is acted on by
/// every agent.
pub proof fn lemma_target_filtering(name: Option<Seq<char>>, a: Seq<char>, b: Seq<char>)
    requires
        a != b,
    ensures
        name == Some(a) ==> spec_targets(name, a) && !spec_targets(name, b),
        name is None ==> spec_targets(name, a) && spec_targets(name, b),
{
}

/// Decides whether this agent must act on the packet.
pub fn should_handle(packet: &ServerPacket, identity: &String) -> (r: bool)
    ensures
        r == spec_targets(packet@.name, identity@),
{
    match &packet.name {
        None => true,
        Some(n) => *n == *identity,
    }
}

/// The command this agent must run for the packet, if the packet targets it.
pub fn handle_packet(packet: &ServerPacket, identity: &String) -> (r: Option<String>)
    ensures
        r is Some <==> spec_targets(packet@.name, identity@),
        r matches Some(cmd) ==> packet@.event == (ServerEventView::ExecCommand {
            command: cmd@,
        }),
{
    if should_handle(packet, identity) {
        match &packet.event {
            ServerEvent::ExecCommand { command } => Some(command.clone()),
        }
    } else {
        None
    }
}

/// Wraps a locally produced event into the packet this agent sends.
pub fn wrap_event(identity: &String, event: ClientEvent) -> (r: ClientPacket)
    ensures
        r@.name == identity@,
        r@.event == event@,
{
    ClientPacket { name: identity.clone(), event }
}

/// The commands an agent with this identity must run, given the packets
/// decoded from its connection, in arrival order.
pub open spec fn spec_commands(pvs: Seq<ServerPacketView>, identity: Seq<char>) -> Seq<Seq<char>>
    decreases pvs.len(),
{
    if pvs.len() == 0 {
        Seq::empty()
    } else {
        let rest = spec_commands(pvs.drop_last(), identity);
        if spec_targets(pvs.last().name, identity) {
            rest.push(pvs.last().event->ExecCommand_command)
        } else {
            rest
        }
    }
}

/// One connection session of an agent: the incremental decoder for the
/// packets arriving from the aggregator, and the shared closed flag both
/// loops of the session observe.
pub struct AgentSession {
    identity: String,
    decoder: ReceiveBuffer<ServerPacket>,
    closed: bool,
}

impl AgentSession {
    /// The identity this agent declares in every packet it sends.
    pub closed spec fn identity_view(&self) -> Seq<char> {
        self.identity@
    }

    /// The unconsumed tail of the byte stream, buffered between reads.
    pub closed spec fn buffered(&self) -> Seq<u8> {
        self.decoder@
    }

    /// Whether the session has seen a read or write error (or end of
    /// stream) and must end.
    pub closed spec fn closed_flag(&self) -> bool {
        self.closed
    }

    /// A fresh session for one connection attempt.
    pub fn new(identity: String) -> (r: AgentSession)
        ensures
            r.identity_view() == identity@,
            r.buffered() == Seq::<u8>::empty(),
            !r.closed_flag(),
    {
        AgentSession { identity, decoder: ReceiveBuffer::new(), closed: false }
    }

    /// Whether the session is over; the send loop re-checks this on every
    /// timeout tick so it exits promptly.
    pub fn is_closed(&self) -> (r: bool)
        ensures
            r == self.closed_flag(),
    {
        self.closed
    }

    /// Records a write error: the whole session ends.
    pub fn on_write_error(&mut self)
        ensures
            final(self).closed_flag(),
            final(self).identity_view() == old(self).identity_view(),
            final(self).buffered() == old(self).buffered(),
    {
        self.closed = true;
    }

    /// Feeds the bytes of one transport read. Every command of every packet
    /// that is fully framed, decodes, and targets this agent is returned in
    /// arrival order; packets for other agents are silently dropped. An
    /// empty read (end of stream) or a malformed payload closes the session.
    pub fn on_bytes(&mut self, chunk: &[u8]) -> (cmds: Vec<String>)
        ensures
            final(self).identity_view() == old(self).identity_view(),
            ({
                let whole = old(self).buffered() + chunk@;
                &&& (chunk@.len() == 0 ==> final(self).closed_flag() && cmds@.len() == 0
                    && final(self).buffered() == old(self).buffered())
                &&& (chunk@.len() > 0 && frames_all_decodable::<ServerPacket>(spec_frames(whole))
                    ==> {
                    &&& final(self).closed_flag() == old(self).closed_flag()
                    &&& final(self).buffered() == spec_frames_rest(whole)
                    &&& exists|pvs: Seq<ServerPacketView>|
                        {
                            &&& pvs.len() == spec_frames(whole).len()
                            &&& (forall|k: int|
                                0 <= k < pvs.len() ==> ServerPacket::spec_enc(#[trigger] pvs[k])
                                    == spec_frames(whole)[k])
                            &&& cmds.deep_view() == #[trigger] spec_commands(
                                pvs,
                                old(self).identity_view(),
                            )
                        }
                })
                &&& (chunk@.len() > 0 && !frames_all_decodable::<ServerPacket>(spec_frames(whole))
                    ==> final(self).closed_flag() && cmds@.len() == 0 && final(self).buffered()
                    == Seq::<u8>::empty())
            }),
    {
        match self.decoder.read(chunk) {
            Err(_) => {
                self.closed = true;
                Vec::new()
            },
            Ok(packets) => {
                let ghost pvs = Seq::new(packets@.len() as nat, |k: int| packets@[k]@);
                let n = packets.len();
                let mut cmds: Vec<String> = Vec::new();
                let mut k: usize = 0;
                proof {
                    assert(pvs.take(0) =~= Seq::<ServerPacketView>::empty());
                    assert(cmds.deep_view() =~= spec_commands(pvs.take(0), self.identity@));
                }
                while k < n
                    invariant
                        k <= n,
                        n == packets@.len(),
                        pvs == Seq::new(packets@.len() as nat, |j: int| packets@[j]@),
                        self.identity@ == old(self).identity_view(),
                        cmds.deep_view() == spec_commands(pvs.take(k as int), self.identity@),
                    decreases n - k,
                {
                    proof {
                        assert(pvs.take(k + 1).drop_last() =~= pvs.take(k as int));
                        assert(pvs.take(k + 1).last() == pvs[k as int]);
                    }
                    let ghost before = cmds.deep_view();
                    match handle_packet(&packets[k], &self.identity) {
                        Some(cmd) => {
                            let ghost cmdv = cmd@;
                            cmds.push(cmd);
                            proof {
                                assert(cmds.deep_view() =~= before.push(cmdv));
                            }
                        },
                        None => {},
                    }
                    k = k + 1;
                }
                proof {
                    assert(pvs.take(n as int) =~= pvs);
                    let whole = old(self).buffered() + chunk@;
                    assert(pvs.len() == spec_frames(whole).len());
                    assert forall|k: int| 0 <= k < pvs.len() implies ServerPacket::spec_enc(
                        #[trigger] pvs[k],
                    ) == spec_frames(whole)[k] by {
                        assert(pvs[k] == packets@[k]@);
                    }
                    assert(cmds.deep_view() == spec_commands(pvs, old(self).identity_view()));
                    assert forall|k: int| 0 <= k < spec_frames(whole).len() implies
                        spec_payload_decodable::<ServerPacket>(
                        #[trigger] spec_frames(whole)[k]) by {
                        assert(ServerPacket::enc_valid(packets@[k]@) && ServerPacket::spec_enc(
                            packets@[k]@,
                        ) == spec_frames(whole)[k]);
                    }
                    assert(frames_all_decodable::<ServerPacket>(spec_frames(whole)));
                }
                cmds
            },
        }
    }

    /// The complete wire frame for one locally produced event, wrapped in a
    /// packet carrying this agent's identity. Refused only when the
    /// encoding cannot fit the 4-byte length fields of the wire format.
    pub fn next_frame(&self, event: ClientEvent) -> (r: Option<Vec<u8>>)
        ensures
            ({
                let pv = (ClientPacketView { name: self.identity_view(), event: event@ });
                match r {
                    Some(f) => client_packet_fits(pv) && spec_enc_client_packet(pv).len()
                        <= u32::MAX && f@ == spec_frame(spec_enc_client_packet(pv)),
                    None => !(client_packet_fits(pv) && spec_enc_client_packet(pv).len()
                        <= u32::MAX),
                }
            }),
    {
        let packet = wrap_event(&self.identity, event);
        proof {
            assert(packet@ =~= (ClientPacketView {
                name: self.identity_view(),
                event: packet@.event,
            }));
        }
        try_serialize(&packet)
    }
}

} // verus!
