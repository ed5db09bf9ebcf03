//! The list of captured packets: how it grows, and which of its entries are shown.

use vstd::prelude::*;
use vstd::slice::slice_subrange;
use vstd::string::*;
use crate::clock;
use crate::dml;
use crate::dml::{decode_dml_message, DecodedMessage};
use crate::game_hooks;
use crate::kinp;
use crate::kinp::{endpoint_text, Direction, KinpDecoder, KinpMessage, MessageType, RawPacketData};
use crate::pipe;
use crate::schema;
use crate::schema::SchemaRegistry;
use crate::text;
use crate::text::{chars_of, contains_text, lower_text, parse_u8, same_text};

verus! {

/// Where the fields of a DML message begin in its payload.
pub const DML_DATA_OFFSET: usize = 8;

/// A packet in the list.
pub struct PacketEntry {
    pub msg: KinpMessage,
    pub decoded: Option<DecodedMessage>,
}

/// The packets captured so far, and what is needed to take in more.
pub struct PacketLog {
    pub packets: Vec<PacketEntry>,
    pub selected_packet: Option<usize>,
    pub filter_text: String,
    pub filter_service: String,
    pub schema_registry: SchemaRegistry,
    pub decoder: KinpDecoder,
}

// ---- the model ----

/// A packet in the list, as values.
#[verifier::ext_equal]
pub struct PacketEntryView {
    pub msg: kinp::KinpMessageView,
    pub decoded: Option<dml::DecodedMessageView>,
}

impl View for PacketEntry {
    type V = PacketEntryView;

    open spec fn view(&self) -> PacketEntryView {
        PacketEntryView {
            msg: self.msg@,
            decoded: match self.decoded {
                Some(d) => Some(d@),
                None => None,
            },
        }
    }
}

/// Packets as values.
pub open spec fn packet_views(packets: Seq<PacketEntry>) -> Seq<PacketEntryView> {
    Seq::new(packets.len(), |i: int| packets[i]@)
}

/// Whether a packet was captured in plaintext.
pub open spec fn is_plaintext(envelope: kinp::Envelope) -> bool {
    envelope.src_ip == "plaintext"@
}

/// The entry for a packet as it went over the socket.
pub open spec fn raw_entry(envelope: kinp::Envelope, payload: Seq<u8>) -> PacketEntryView {
    PacketEntryView {
        msg: kinp::KinpMessageView {
            timestamp: clock::clock_text(envelope.timestamp.secs(), envelope.timestamp.subsec()),
            direction: kinp::direction_of(envelope.is_from_server),
            src: kinp::endpoint(envelope.src_ip, envelope.src_port),
            dst: kinp::endpoint(envelope.dst_ip, envelope.dst_port),
            msg_type: MessageType::Encrypted,
            raw_payload: payload,
            service_id: None,
            message_id: None,
            dml_length: None,
        },
        decoded: None,
    }
}

/// The entry for a message: a DML message with data is decoded.
pub open spec fn message_entry(
    payload: Seq<u8>,
    envelope: kinp::Envelope,
    services: Map<u8, schema::DmlServiceView>,
) -> PacketEntryView {
    PacketEntryView {
        msg: kinp::message_of(payload, envelope),
        decoded: match kinp::message_type(payload) {
            MessageType::Dml { service_id, message_id } if payload.len() > DML_DATA_OFFSET => Some(
                dml::decoded_message(
                    service_id,
                    message_id,
                    payload.skip(DML_DATA_OFFSET as int),
                    services,
                ),
            ),
            _ => None,
        },
    }
}

/// The entries that a packet adds to the list: the packet itself where it is not plaintext,
/// and the messages that it completes.
pub open spec fn entries_of(
    streams: Map<kinp::StreamKey, Seq<u8>>,
    services: Map<u8, schema::DmlServiceView>,
    packet: kinp::RawPacketView,
) -> Seq<PacketEntryView> {
    let payloads = kinp::payloads_completed(streams, packet.envelope, packet.payload);
    let messages = Seq::new(
        payloads.len(),
        |i: int| message_entry(payloads[i], packet.envelope, services),
    );
    if is_plaintext(packet.envelope) {
        messages
    } else {
        seq![raw_entry(packet.envelope, packet.payload)] + messages
    }
}

/// What the streams hold back after these packets.
pub open spec fn streams_after_all(
    streams: Map<kinp::StreamKey, Seq<u8>>,
    packets: Seq<kinp::RawPacketView>,
) -> Map<kinp::StreamKey, Seq<u8>>
    decreases packets.len(),
{
    if packets.len() == 0 {
        streams
    } else {
        let last = packets.last();
        kinp::streams_after(
            streams_after_all(streams, packets.drop_last()),
            last.envelope,
            last.payload,
        )
    }
}

/// The entries that these packets add to the list.
pub open spec fn entries_of_all(
    streams: Map<kinp::StreamKey, Seq<u8>>,
    services: Map<u8, schema::DmlServiceView>,
    packets: Seq<kinp::RawPacketView>,
) -> Seq<PacketEntryView>
    decreases packets.len(),
{
    if packets.len() == 0 {
        Seq::empty()
    } else {
        let before = packets.drop_last();
        entries_of_all(streams, services, before) + entries_of(
            streams_after_all(streams, before),
            services,
            packets.last(),
        )
    }
}

/// Packets as values.
pub open spec fn raw_views(packets: Seq<RawPacketData>) -> Seq<kinp::RawPacketView> {
    Seq::new(packets.len(), |i: int| packets[i]@)
}

/// Whether an entry is shown when the list is filtered by this text: its message or its
/// service contains the text, in any case.
pub open spec fn matches_text(entry: PacketEntryView, filter: Seq<char>) -> bool {
    filter.len() == 0 || (entry.decoded matches Some(d) && (text::occurs_in(
        text::lower(d.message_name),
        text::lower(filter),
    ) || text::occurs_in(text::lower(d.service_name), text::lower(filter))))
}

/// Whether an entry is shown when the list is filtered by this service: the filter is not a
/// number, or the entry is of that service.
pub open spec fn matches_service(entry: PacketEntryView, filter: Seq<char>) -> bool {
    match text::parsed_u8(filter) {
        Some(id) => entry.msg.service_id == Some(id),
        None => true,
    }
}

/// Whether an entry is shown.
pub open spec fn is_shown(entry: PacketEntryView, filter_text: Seq<char>, filter_service: Seq<char>) -> bool {
    matches_text(entry, filter_text) && matches_service(entry, filter_service)
}

/// The indices of the entries that are shown, in order.
pub open spec fn shown_indices(
    packets: Seq<PacketEntryView>,
    filter_text: Seq<char>,
    filter_service: Seq<char>,
) -> Seq<int>
    decreases packets.len(),
{
    if packets.len() == 0 {
        Seq::empty()
    } else {
        let before = shown_indices(packets.drop_last(), filter_text, filter_service);
        if is_shown(packets.last(), filter_text, filter_service) {
            before.push(packets.len() - 1)
        } else {
            before
        }
    }
}

// ---- taking packets in ----

/// The message of a packet as it went over the socket.
fn raw_message(raw: &RawPacketData) -> (msg: KinpMessage)
    ensures
        msg@ == raw_entry(raw.envelope(), raw.payload@).msg,
{
    let direction = if raw.is_from_server {
        Direction::ServerToClient
    } else {
        Direction::ClientToServer
    };
    let raw_payload: Vec<u8> = crate::bytes::copy_range(raw.payload.as_slice(), 0, raw.payload.len());
    assert(raw_payload@ =~= raw.payload@);
    KinpMessage {
        timestamp: raw.timestamp.text(),
        direction,
        src: endpoint_text(raw.src_ip.as_str(), raw.src_port),
        dst: endpoint_text(raw.dst_ip.as_str(), raw.dst_port),
        msg_type: MessageType::Encrypted,
        raw_payload,
        service_id: None,
        message_id: None,
        dml_length: None,
    }
}

/// Decodes a message that is DML and has data.
pub fn decode_message(msg: &KinpMessage, registry: &SchemaRegistry) -> (r: Option<DecodedMessage>)
    ensures
        match msg.msg_type {
            MessageType::Dml { service_id, message_id } if msg.raw_payload@.len() > DML_DATA_OFFSET => {
                r matches Some(d) && d@ == dml::decoded_message(
                    service_id,
                    message_id,
                    msg.raw_payload@.skip(DML_DATA_OFFSET as int),
                    registry@,
                )
            },
            _ => r is None,
        },
{
    match msg.msg_type {
        MessageType::Dml { service_id, message_id } => {
            let n: usize = msg.raw_payload.len();
            if n > DML_DATA_OFFSET {
                let fields = slice_subrange(msg.raw_payload.as_slice(), DML_DATA_OFFSET, n);
                assert(fields@ =~= msg.raw_payload@.skip(DML_DATA_OFFSET as int));
                decode_dml_message(service_id, message_id, fields, registry)
            } else {
                None
            }
        },
        _ => None,
    }
}

impl PacketLog {
    /// An empty list without schemas.
    pub fn new() -> (log: Self)
        ensures
            log.decoder.wf(),
            log.decoder@ == Map::<kinp::StreamKey, Seq<u8>>::empty(),
            log.packets@.len() == 0,
            log.selected_packet is None,
            log.filter_text@.len() == 0,
            log.filter_service@.len() == 0,
            log.schema_registry@ == Map::<u8, schema::DmlServiceView>::empty(),
    {
        PacketLog {
            packets: Vec::new(),
            selected_packet: None,
            filter_text: String::new(),
            filter_service: String::new(),
            schema_registry: SchemaRegistry::new(),
            decoder: KinpDecoder::new(),
        }
    }

    /// Takes one packet in.
    pub fn process_packet(&mut self, raw: RawPacketData)
        requires
            old(self).decoder.wf(),
        ensures
            final(self).decoder.wf(),
            packet_views(final(self).packets@) == packet_views(old(self).packets@) + entries_of(
                old(self).decoder@,
                old(self).schema_registry@,
                raw@,
            ),
            final(self).decoder@ == kinp::streams_after(
                old(self).decoder@,
                raw.envelope(),
                raw.payload@,
            ),
            final(self).selected_packet == old(self).selected_packet,
            final(self).filter_text == old(self).filter_text,
            final(self).filter_service == old(self).filter_service,
            final(self).schema_registry == old(self).schema_registry,
    {
        let ghost added = entries_of(self.decoder@, self.schema_registry@, raw@);
        let ghost payloads = kinp::payloads_completed(self.decoder@, raw.envelope(), raw.payload@);
        let ghost first = packet_views(self.packets@);
        let ghost mut skipped: int = 0;
        if !same_text(raw.src_ip.as_str(), "plaintext") {
            let entry = PacketEntry { msg: raw_message(&raw), decoded: None };
            self.packets.push(entry);
            proof {
                skipped = 1;
                assert(packet_views(self.packets@) =~= first.push(entry@));
                assert(added[0] == entry@);
            }
        }
        assert(packet_views(self.packets@) =~= first + added.take(skipped));
        let ghost envelope = raw.envelope();
        let messages: Vec<KinpMessage> = self.decoder.process(raw);
        let ghost views = kinp::message_views(messages@);
        let ghost n = views.len();
        for msg in it: messages
            invariant
                it.seq().len() == n,
                n == payloads.len(),
                added == entries_of(old(self).decoder@, old(self).schema_registry@, raw@),
                payloads == kinp::payloads_completed(old(self).decoder@, envelope, raw.payload@),
                envelope == raw.envelope(),
                skipped == (if is_plaintext(envelope) { 0int } else { 1int }),
                views == Seq::new(payloads.len(), |i: int| kinp::message_of(payloads[i], envelope)),
                forall|j: int| 0 <= j < n ==> (#[trigger] it.seq()[j])@ == views[j],
                packet_views(self.packets@) == first + added.take(skipped + it.index()),
                self.schema_registry == old(self).schema_registry,
                self.selected_packet == old(self).selected_packet,
                self.filter_text == old(self).filter_text,
                self.filter_service == old(self).filter_service,
                self.decoder.wf(),
                self.decoder@ == kinp::streams_after(old(self).decoder@, envelope, raw.payload@),
        {
            let ghost at = it.index() as int;
            assert(msg@ == views[at]);
            let decoded = decode_message(&msg, &self.schema_registry);
            let entry = PacketEntry { msg, decoded };
            let ghost before = packet_views(self.packets@);
            self.packets.push(entry);
            proof {
                assert(packet_views(self.packets@) =~= before.push(entry@));
                assert(added[skipped + at] == message_entry(
                    payloads[at],
                    envelope,
                    old(self).schema_registry@,
                ));
                assert(entry@ == added[skipped + at]);
                assert(added.take(skipped + at + 1) =~= added.take(skipped + at).push(
                    added[skipped + at],
                ));
                assert(first + added.take(skipped + at).push(added[skipped + at]) =~= (first + added.take(
                    skipped + at,
                )).push(added[skipped + at]));
            }
        }
        assert(added.take(skipped + n) =~= added);
    }
}

impl PacketLog {
    /// Takes in the packets that arrived, in order.
    pub fn process_incoming_packets(&mut self, raw_packets: Vec<RawPacketData>)
        requires
            old(self).decoder.wf(),
        ensures
            final(self).decoder.wf(),
            packet_views(final(self).packets@) == packet_views(old(self).packets@) + entries_of_all(
                old(self).decoder@,
                old(self).schema_registry@,
                raw_views(raw_packets@),
            ),
            final(self).decoder@ == streams_after_all(old(self).decoder@, raw_views(raw_packets@)),
            final(self).selected_packet == old(self).selected_packet,
            final(self).filter_text == old(self).filter_text,
            final(self).filter_service == old(self).filter_service,
            final(self).schema_registry == old(self).schema_registry,
    {
        let ghost raws = raw_views(raw_packets@);
        let ghost first = packet_views(self.packets@);
        let ghost streams = self.decoder@;
        let ghost services = self.schema_registry@;
        assert(raws.take(0) =~= Seq::<kinp::RawPacketView>::empty());
        assert(first + Seq::<PacketEntryView>::empty() =~= first);
        for raw in it: raw_packets
            invariant
                it.seq().len() == raws.len(),
                forall|j: int| 0 <= j < raws.len() ==> (#[trigger] it.seq()[j])@ == raws[j],
                streams == old(self).decoder@,
                services == old(self).schema_registry@,
                self.decoder.wf(),
                self.decoder@ == streams_after_all(streams, raws.take(it.index() as int)),
                packet_views(self.packets@) == first + entries_of_all(
                    streams,
                    services,
                    raws.take(it.index() as int),
                ),
                self.schema_registry == old(self).schema_registry,
                self.selected_packet == old(self).selected_packet,
                self.filter_text == old(self).filter_text,
                self.filter_service == old(self).filter_service,
        {
            let ghost at = it.index() as int;
            assert(raw@ == raws[at]);
            self.process_packet(raw);
            proof {
                assert(raws.take(at + 1).drop_last() =~= raws.take(at));
                assert(raws.take(at + 1).last() == raws[at]);
                let before = entries_of_all(streams, services, raws.take(at));
                let more = entries_of(streams_after_all(streams, raws.take(at)), services, raws[at]);
                assert((first + before) + more =~= first + (before + more));
            }
        }
        assert(raws.take(raws.len() as int) =~= raws);
    }

    /// Empties the list. What the streams hold back, and the schemas, stay.
    pub fn clear(&mut self)
        ensures
            final(self).packets@.len() == 0,
            final(self).selected_packet is None,
            final(self).decoder == old(self).decoder,
            final(self).schema_registry == old(self).schema_registry,
            final(self).filter_text == old(self).filter_text,
            final(self).filter_service == old(self).filter_service,
    {
        self.packets = Vec::new();
        self.selected_packet = None;
    }

    /// The indices of the entries that the filters let through, in order.
    pub fn filtered_indices(&self) -> (indices: Vec<usize>)
        ensures
            indices@.map_values(|i: usize| i as int) == shown_indices(
                packet_views(self.packets@),
                self.filter_text@,
                self.filter_service@,
            ),
    {
        let mut indices: Vec<usize> = Vec::new();
        let service: Option<u8> = parse_u8(chars_of(self.filter_service.as_str()).as_slice());
        let filter_lower: String = lower_text(self.filter_text.as_str());
        let by_text: bool = !self.filter_text.as_str().is_empty();
        let ghost views = packet_views(self.packets@);
        let mut i: usize = 0;
        assert(views.take(0) =~= Seq::<PacketEntryView>::empty());
        assert(indices@.map_values(|i: usize| i as int) =~= Seq::<int>::empty());
        while i < self.packets.len()
            invariant
                i <= self.packets@.len(),
                views == packet_views(self.packets@),
                service == text::parsed_u8(self.filter_service@),
                filter_lower@ == text::lower(self.filter_text@),
                by_text == (self.filter_text@.len() > 0),
                indices@.map_values(|i: usize| i as int) == shown_indices(
                    views.take(i as int),
                    self.filter_text@,
                    self.filter_service@,
                ),
            decreases self.packets@.len() - i,
        {
            let entry = &self.packets[i];
            assert(views.take(i + 1).drop_last() =~= views.take(i as int));
            assert(views.take(i + 1).last() == entry@);
            let text_fits: bool = !by_text || match &entry.decoded {
                Some(d) => {
                    let message: String = lower_text(d.message_name.as_str());
                    let service_name: String = lower_text(d.service_name.as_str());
                    contains_text(message.as_str(), filter_lower.as_str()) || contains_text(
                        service_name.as_str(),
                        filter_lower.as_str(),
                    )
                },
                None => false,
            };
            let service_fits: bool = match service {
                Some(id) => match entry.msg.service_id {
                    Some(own) => own == id,
                    None => false,
                },
                None => true,
            };
            if text_fits && service_fits {
                let ghost before = indices@;
                indices.push(i);
                assert(indices@.map_values(|i: usize| i as int) =~= before.map_values(
                    |i: usize| i as int,
                ).push(i as int));
            }
            i += 1;
        }
        assert(views.take(i as int) =~= views);
        indices
    }
}

// ---- laws ----

/// The shown indices are those of the entries that the filters let through, each once, in
/// rising order.
pub proof fn law_shown_indices(
    packets: Seq<PacketEntryView>,
    filter_text: Seq<char>,
    filter_service: Seq<char>,
)
    ensures
        ({
            let shown = shown_indices(packets, filter_text, filter_service);
            &&& forall|i: int|
                shown.contains(i) <==> 0 <= i < packets.len() && is_shown(
                    packets[i],
                    filter_text,
                    filter_service,
                )
            &&& forall|a: int, b: int| 0 <= a < b < shown.len() ==> shown[a] < shown[b]
        }),
    decreases packets.len(),
{
    let shown = shown_indices(packets, filter_text, filter_service);
    if packets.len() > 0 {
        let before = packets.drop_last();
        let earlier = shown_indices(before, filter_text, filter_service);
        let last = packets.len() - 1;
        law_shown_indices(before, filter_text, filter_service);
        assert forall|k: int| 0 <= k < earlier.len() implies 0 <= #[trigger] earlier[k] < last by {
            assert(earlier.contains(earlier[k]));
        }
        assert forall|i: int|
            shown.contains(i) <==> 0 <= i < packets.len() && is_shown(
                packets[i],
                filter_text,
                filter_service,
            ) by {
            if 0 <= i < last {
                assert(before[i] == packets[i]);
            }
            if shown.contains(i) {
                let k = choose|k: int| 0 <= k < shown.len() && shown[k] == i;
                if k < earlier.len() {
                    assert(earlier[k] == i);
                    assert(earlier.contains(i));
                }
            }
            if 0 <= i < last && is_shown(packets[i], filter_text, filter_service) {
                assert(earlier.contains(i));
                let k = choose|k: int| 0 <= k < earlier.len() && earlier[k] == i;
                assert(shown[k] == i);
            }
            if i == last && is_shown(packets[i], filter_text, filter_service) {
                assert(shown[earlier.len() as int] == i);
            }
        }
    }
}

/// Without filters every entry is shown.
pub proof fn law_no_filter_shows_all(packets: Seq<PacketEntryView>)
    ensures
        shown_indices(packets, Seq::empty(), Seq::empty()) == Seq::new(packets.len(), |i: int| i),
    decreases packets.len(),
{
    let all = Seq::new(packets.len(), |i: int| i);
    if packets.len() == 0 {
        assert(shown_indices(packets, Seq::empty(), Seq::empty()) =~= all);
    } else {
        law_no_filter_shows_all(packets.drop_last());
        assert(shown_indices(packets, Seq::empty(), Seq::empty()) =~= all);
    }
}

/// Taking packets in one after the other, or in two goes, makes no difference.
pub proof fn law_packets_in_two_goes(
    streams: Map<kinp::StreamKey, Seq<u8>>,
    services: Map<u8, schema::DmlServiceView>,
    first: Seq<kinp::RawPacketView>,
    second: Seq<kinp::RawPacketView>,
)
    ensures
        entries_of_all(streams, services, first + second) == entries_of_all(streams, services, first)
            + entries_of_all(streams_after_all(streams, first), services, second),
        streams_after_all(streams, first + second) == streams_after_all(
            streams_after_all(streams, first),
            second,
        ),
    decreases second.len(),
{
    if second.len() == 0 {
        assert(first + second =~= first);
        let done = entries_of_all(streams, services, first);
        assert(done + Seq::<PacketEntryView>::empty() =~= done);
    } else {
        let both = first + second;
        let before = second.drop_last();
        law_packets_in_two_goes(streams, services, first, before);
        assert(both.drop_last() =~= first + before);
        assert(both.last() == second.last());
        let a = entries_of_all(streams, services, first);
        let b = entries_of_all(streams_after_all(streams, first), services, before);
        let c = entries_of(
            streams_after_all(streams_after_all(streams, first), before),
            services,
            second.last(),
        );
        assert((a + b) + c =~= a + (b + c));
    }
}

/// A packet that was not captured in plaintext is always listed itself, first of what it adds,
/// as encrypted and with its own bytes. A plaintext packet is listed only through the messages
/// it completes.
pub proof fn law_encrypted_packets_are_listed(
    streams: Map<kinp::StreamKey, Seq<u8>>,
    services: Map<u8, schema::DmlServiceView>,
    packet: kinp::RawPacketView,
)
    ensures
        ({
            let added = entries_of(streams, services, packet);
            let payloads = kinp::payloads_completed(streams, packet.envelope, packet.payload);
            if is_plaintext(packet.envelope) {
                added.len() == payloads.len()
            } else {
                &&& added.len() == payloads.len() + 1
                &&& added[0].msg.msg_type == MessageType::Encrypted
                &&& added[0].msg.raw_payload == packet.payload
                &&& added[0].decoded is None
            }
        }),
{
}

/// From the hook to the list: a message that was captured inside the game, written to the pipe
/// and read from it, adds exactly one entry to the list. It is the captured message, and where
/// it has data it is decoded from that data.
pub proof fn law_captured_message_is_listed(
    streams: Map<kinp::StreamKey, Seq<u8>>,
    services: Map<u8, schema::DmlServiceView>,
    captured: game_hooks::CapturedView,
    timestamp: crate::clock::CaptureTime,
)
    requires
        captured.data.len() + 8 <= 0xFFFF,
        ({
            let frame = game_hooks::kinp_frame_bytes(
                captured.service_id,
                captured.message_type,
                captured.data,
            );
            let body = pipe::capture_body(
                game_hooks::plaintext_direction(captured.is_recv),
                0,
                0,
                frame,
            );
            kinp::waiting_in(streams, pipe::body_envelope(body, timestamp).stream()).len() == 0
        }),
    ensures
        ({
            let frame = game_hooks::kinp_frame_bytes(
                captured.service_id,
                captured.message_type,
                captured.data,
            );
            let body = pipe::capture_body(
                game_hooks::plaintext_direction(captured.is_recv),
                0,
                0,
                frame,
            );
            let packet = kinp::RawPacketView {
                envelope: pipe::body_envelope(body, timestamp),
                payload: pipe::body_payload(body),
            };
            let added = entries_of(streams, services, packet);
            &&& added.len() == 1
            &&& added[0].msg.msg_type == (MessageType::Dml {
                service_id: captured.service_id,
                message_id: captured.message_type,
            })
            &&& added[0].msg.direction == kinp::direction_of(captured.is_recv)
            &&& added[0].decoded == (if captured.data.len() > 0 {
                Some(
                    dml::decoded_message(
                        captured.service_id,
                        captured.message_type,
                        captured.data,
                        services,
                    ),
                )
            } else {
                None
            })
        }),
{
    let frame = game_hooks::kinp_frame_bytes(
        captured.service_id,
        captured.message_type,
        captured.data,
    );
    let body = pipe::capture_body(game_hooks::plaintext_direction(captured.is_recv), 0, 0, frame);
    let envelope = pipe::body_envelope(body, timestamp);
    let payload = pipe::body_payload(body);
    game_hooks::law_hook_to_viewer(captured, timestamp);
    assert(kinp::waiting_in(streams, envelope.stream()) + payload =~= payload);
    let inner = game_hooks::kinp_payload(
        captured.service_id,
        captured.message_type,
        captured.data,
    );
    assert(inner.len() == captured.data.len() + 8) by {
        broadcast use crate::bytes::group_le_bytes_len;

    }
}

// ---- laws on what is shown ----

/// The filters hold at the same time: a shown entry is of the service whose number, from 0 to 255,
/// the service filter gives, whatever the text filter is; and its decoded message or its decoded
/// service has the text filter in its name, ignoring case, whatever the service filter is. An
/// entry that passes both is shown, and one that fails either is not.
pub proof fn law_both_filters_hold(
    packets: Seq<PacketEntryView>,
    filter_text: Seq<char>,
    filter_service: Seq<char>,
    i: int,
)
    ensures
        ({
            let shown = shown_indices(packets, filter_text, filter_service);
            let entry = packets[i];
            let id = text::parsed_u8(filter_service);
            let wanted = text::lower(filter_text);
            let named = entry.decoded is Some && (text::occurs_in(
                text::lower(entry.decoded->0.message_name),
                wanted,
            ) || text::occurs_in(text::lower(entry.decoded->0.service_name), wanted));
            &&& shown.contains(i) ==> 0 <= i < packets.len()
            &&& shown.contains(i) && id is Some ==> entry.msg.service_id == id
            &&& shown.contains(i) && filter_text.len() > 0 ==> named
            &&& 0 <= i < packets.len() && (id is None || entry.msg.service_id == id) && (filter_text.len()
                == 0 || named) ==> shown.contains(i)
        }),
{
    law_shown_indices(packets, filter_text, filter_service);
}

/// The service filter is a number: for each number from 0 to 255, written in decimal, exactly the
/// entries of that service pass it, and without a text filter they are shown.
pub proof fn law_service_filter(packets: Seq<PacketEntryView>, service_id: u8, i: int)
    requires
        0 <= i < packets.len(),
    ensures
        shown_indices(packets, Seq::empty(), text::decimal(service_id as nat)).contains(i)
            <==> packets[i].msg.service_id == Some(service_id),
{
    text::law_decimal_is_read_back(service_id);
    law_both_filters_hold(packets, Seq::empty(), text::decimal(service_id as nat), i);
}

/// The text filter finds parts of names: an entry whose message or service has the filter's text
/// somewhere in its name is shown, in whatever case letters are written.
pub proof fn law_text_filter(
    packets: Seq<PacketEntryView>,
    filter_text: Seq<char>,
    filter_service: Seq<char>,
    front: Seq<char>,
    back: Seq<char>,
    i: int,
)
    requires
        0 <= i < packets.len(),
        packets[i].decoded is Some,
        text::parsed_u8(filter_service) is None,
        text::lower(packets[i].decoded->0.message_name) == front + text::lower(filter_text) + back
            || text::lower(packets[i].decoded->0.service_name) == front + text::lower(filter_text) + back,
    ensures
        shown_indices(packets, filter_text, filter_service).contains(i),
{
    let d = packets[i].decoded->0;
    let wanted = text::lower(filter_text);
    text::law_parts_occur(text::lower(d.message_name), wanted, front, back);
    text::law_parts_occur(text::lower(d.service_name), wanted, front, back);
    law_both_filters_hold(packets, filter_text, filter_service, i);
}

/// Another filter hides entries and shows none that were hidden: what is shown under both filters
/// is what is shown under each of them.
pub proof fn law_filters_narrow(
    packets: Seq<PacketEntryView>,
    filter_text: Seq<char>,
    filter_service: Seq<char>,
    i: int,
)
    ensures
        shown_indices(packets, filter_text, filter_service).contains(i) <==> shown_indices(
            packets,
            filter_text,
            Seq::empty(),
        ).contains(i) && shown_indices(packets, Seq::empty(), filter_service).contains(i),
{
    law_both_filters_hold(packets, filter_text, filter_service, i);
    law_both_filters_hold(packets, filter_text, Seq::empty(), i);
    law_both_filters_hold(packets, Seq::empty(), filter_service, i);
}

/// The shown entries stay in the order of the list, each once.
pub proof fn law_shown_in_order(
    packets: Seq<PacketEntryView>,
    filter_text: Seq<char>,
    filter_service: Seq<char>,
    a: int,
    b: int,
)
    requires
        0 <= a < b < shown_indices(packets, filter_text, filter_service).len(),
    ensures
        shown_indices(packets, filter_text, filter_service)[a] < shown_indices(
            packets,
            filter_text,
            filter_service,
        )[b],
{
    law_shown_indices(packets, filter_text, filter_service);
}

// ---- laws on what is listed ----

/// A packet is listed with where it came from and where it went: source and destination are each
/// the packet's address, a colon and the port in decimal, in all entries that the packet adds,
/// the one for itself and those for the messages that it completes. Direction and time are the
/// packet's, too.
pub proof fn law_entries_keep_their_packet(
    streams: Map<kinp::StreamKey, Seq<u8>>,
    services: Map<u8, schema::DmlServiceView>,
    packet: kinp::RawPacketView,
    i: int,
)
    requires
        0 <= i < entries_of(streams, services, packet).len(),
    ensures
        ({
            let msg = entries_of(streams, services, packet)[i].msg;
            let envelope = packet.envelope;
            &&& msg.src == envelope.src_ip + seq![':'] + text::decimal(envelope.src_port as nat)
            &&& msg.dst == envelope.dst_ip + seq![':'] + text::decimal(envelope.dst_port as nat)
            &&& msg.direction == (if envelope.is_from_server {
                Direction::ServerToClient
            } else {
                Direction::ClientToServer
            })
            &&& msg.timestamp == clock::clock_text(envelope.timestamp.secs(), envelope.timestamp.subsec())
        }),
{
    kinp::law_messages_keep_their_packet(packet.payload, packet.envelope);
    let payloads = kinp::payloads_completed(streams, packet.envelope, packet.payload);
    let skipped = if is_plaintext(packet.envelope) { 0int } else { 1 };
    if i >= skipped {
        kinp::law_messages_keep_their_packet(payloads[i - skipped], packet.envelope);
    }
}

/// The entry for the packet itself, on its own: where it came from and where it went, with address
/// and port each, when and in which direction; all its bytes, as encrypted; and no service, message
/// or length.
pub proof fn law_raw_entry(envelope: kinp::Envelope, payload: Seq<u8>)
    ensures
        ({
            let entry = raw_entry(envelope, payload);
            &&& entry.msg.src == envelope.src_ip + seq![':'] + text::decimal(envelope.src_port as nat)
            &&& entry.msg.dst == envelope.dst_ip + seq![':'] + text::decimal(envelope.dst_port as nat)
            &&& entry.msg.direction == (if envelope.is_from_server {
                Direction::ServerToClient
            } else {
                Direction::ClientToServer
            })
            &&& entry.msg.timestamp == clock::clock_text(
                envelope.timestamp.secs(),
                envelope.timestamp.subsec(),
            )
            &&& entry.msg.msg_type == MessageType::Encrypted
            &&& entry.msg.raw_payload == payload
            &&& entry.msg.service_id is None
            &&& entry.msg.message_id is None
            &&& entry.msg.dml_length is None
            &&& entry.decoded is None
        }),
{
    assert(envelope.src_ip.push(':') =~= envelope.src_ip + seq![':']);
    assert(envelope.dst_ip.push(':') =~= envelope.dst_ip + seq![':']);
}

/// Behind the packet itself, which is left out where its source is `plaintext`, come the messages
/// that it completes, in order, one entry each. A DML message of more than eight bytes is decoded
/// from the bytes behind the eighth, by its own service and message; nothing else is decoded.
pub proof fn law_completed_messages_are_listed(
    streams: Map<kinp::StreamKey, Seq<u8>>,
    services: Map<u8, schema::DmlServiceView>,
    packet: kinp::RawPacketView,
    i: int,
)
    requires
        0 <= i < kinp::payloads_completed(streams, packet.envelope, packet.payload).len(),
    ensures
        ({
            let payloads = kinp::payloads_completed(streams, packet.envelope, packet.payload);
            let added = entries_of(streams, services, packet);
            let skipped = if packet.envelope.src_ip == "plaintext"@ { 0int } else { 1 };
            let payload = payloads[i];
            let entry = added[skipped + i];
            &&& added.len() == skipped + payloads.len()
            &&& entry.msg.raw_payload == payload
            &&& entry.msg == kinp::message_of(payload, packet.envelope)
            &&& payload.len() > 8 && payload[0] == 0 ==> entry.decoded == Some(
                dml::decoded_message(
                    payload[4],
                    payload[5],
                    payload.subrange(8, payload.len() as int),
                    services,
                ),
            )
            &&& payload.len() <= 8 || payload[0] != 0 ==> entry.decoded is None
        }),
{
    let payload = kinp::payloads_completed(streams, packet.envelope, packet.payload)[i];
    kinp::law_payload_headers(payload, packet.envelope);
    if payload.len() > 8 {
        assert(payload.skip(8) =~= payload.subrange(8, payload.len() as int));
    }
}

/// A frame that arrives whole and alone, not in plaintext, adds two entries: the packet with all
/// its bytes, and the message of the frame. In plaintext it adds the message only.
pub proof fn law_whole_frame_is_listed(
    streams: Map<kinp::StreamKey, Seq<u8>>,
    services: Map<u8, schema::DmlServiceView>,
    envelope: kinp::Envelope,
    payload: Seq<u8>,
)
    requires
        payload.len() <= 0xFFFF,
        kinp::waiting_in(streams, envelope.stream()).len() == 0,
    ensures
        ({
            let packet = kinp::RawPacketView { envelope, payload: kinp::frame(payload) };
            let added = entries_of(streams, services, packet);
            let encrypted = envelope.src_ip != "plaintext"@;
            &&& added.len() == (if encrypted { 2int } else { 1 })
            &&& encrypted ==> added[0].msg.raw_payload == kinp::frame(payload)
            &&& added.last().msg.raw_payload == payload
        }),
{
    kinp::law_first_frame_comes_first(payload, Seq::empty());
    kinp::law_few_bytes_wait(Seq::empty());
    assert(kinp::waiting_in(streams, envelope.stream()) + kinp::frame(payload) =~= kinp::frame(payload)
        + Seq::<u8>::empty());
    assert(seq![payload] + Seq::<Seq<u8>>::empty() =~= seq![payload]);
}

/// Packets are listed in the order in which they come: one more packet adds its entries behind
/// those that are there.
pub proof fn law_packets_are_listed_in_order(
    streams: Map<kinp::StreamKey, Seq<u8>>,
    services: Map<u8, schema::DmlServiceView>,
    packets: Seq<kinp::RawPacketView>,
    packet: kinp::RawPacketView,
)
    ensures
        entries_of_all(streams, services, Seq::empty()).len() == 0,
        entries_of_all(streams, services, packets.push(packet)) == entries_of_all(
            streams,
            services,
            packets,
        ) + entries_of(streams_after_all(streams, packets), services, packet),
{
    assert(packets.push(packet).drop_last() =~= packets);
}

/// An entry's values are those of its parts.
pub proof fn law_entry_values(entry: PacketEntry)
    ensures
        entry@.msg == entry.msg@,
        entry@.decoded is Some <==> entry.decoded is Some,
        entry.decoded is Some ==> entry@.decoded->0 == entry.decoded->0@,
{
}

} // verus!
