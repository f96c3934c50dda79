//! Announces of `nomadnetwork.node`, with the display name as UTF-8 app data.

use vstd::prelude::*;
use vstd::utf8::*;

use crate::error;
use crate::error::ErrorView;
use crate::error::NomadError;
use crate::node::AnnounceInterval;
use crate::node::NomadNodeConfig;
use crate::text;
use crate::text::clamp_bytes;
use crate::text::has_run;
use crate::text::trim;
use crate::text::utf8_bytes;

verus! {

/// Max UTF-8 bytes included as announce app data (display name).
pub const MAX_ANNOUNCE_NAME_BYTES: usize = 256;

/// The name as it is announced: trimmed, and cut at a character so that it has
/// no more than `MAX_ANNOUNCE_NAME_BYTES` bytes.
pub open spec fn announced_name(name: Seq<char>) -> Seq<char> {
    text::byte_prefix(text::trimmed(name), MAX_ANNOUNCE_NAME_BYTES as nat)
}

/// The app data of an announce: the bytes of the announced name, none where it
/// is empty.
pub open spec fn app_data(name: Option<Seq<char>>) -> Option<Seq<u8>> {
    match name {
        Some(name) => if announced_name(name).len() == 0 {
            None
        } else {
            Some(encode_utf8(announced_name(name)))
        },
        None => None,
    }
}

/// The name as it is announced.
pub fn clamp_announce_name(name: &str) -> (r: &str)
    ensures
        r@ == announced_name(name@),
{
    clamp_bytes(trim(name), MAX_ANNOUNCE_NAME_BYTES)
}

/// The app data of an announce.
pub fn announce_app_data(display_name: Option<&str>) -> (r: Option<Vec<u8>>)
    ensures
        app_data(
            match display_name {
                Some(name) => Some(name@),
                None => None,
            },
        ) == match r {
            Some(data) => Some(data@),
            None => None,
        },
{
    match display_name {
        None => None,
        Some(name) => {
            let clamped = clamp_announce_name(name);
            if clamped.unicode_len() == 0 {
                None
            } else {
                Some(utf8_bytes(clamped))
            }
        },
    }
}

/// An announce packet: the packed header followed by the packed announce. Where
/// the announce could not be created, the error tells why.
pub fn build_nomad_announce_packet(header: Vec<u8>, announce: Result<Vec<u8>, String>) -> (r:
    Result<Vec<u8>, NomadError>)
    ensures
        error::result_view(r) == match announce {
            Ok(data) => Ok(header@ + data@),
            Err(why) => Err(ErrorView::Message(why@)),
        },
{
    match announce {
        Err(why) => Err(NomadError::Message(why)),
        Ok(data) => {
            let mut raw = header;
            let mut rest = data;
            raw.append(&mut rest);
            Ok(raw)
        },
    }
}

/// The kind of header that an announce has.
#[derive(Clone, Copy, Debug, PartialEq, Eq, Structural)]
pub enum AnnounceHeaderType {
    Header1,
}

/// How an announce travels.
#[derive(Clone, Copy, Debug, PartialEq, Eq, Structural)]
pub enum AnnounceTransport {
    Broadcast,
}

/// The kind of destination that is announced.
#[derive(Clone, Copy, Debug, PartialEq, Eq, Structural)]
pub enum AnnounceDestination {
    Single,
}

/// The kind of packet that an announce is.
#[derive(Clone, Copy, Debug, PartialEq, Eq, Structural)]
pub enum AnnouncePacket {
    Announce,
}

/// The context of an announce.
#[derive(Clone, Copy, Debug, PartialEq, Eq, Structural)]
pub enum AnnounceContext {
    Absent,
}

/// What the header of an announce packet says.
#[derive(Clone, Copy, Debug)]
pub struct AnnounceHeader {
    pub header_type: AnnounceHeaderType,
    pub context_flag: bool,
    pub transport_type: AnnounceTransport,
    pub destination_type: AnnounceDestination,
    pub packet_type: AnnouncePacket,
    /// How many hops the packet has made.
    pub hops: u8,
    /// The transport node that the packet goes through, if any.
    pub transport_id: Option<[u8; 16]>,
    /// The destination that is announced.
    pub destination_hash: [u8; 16],
    pub context: AnnounceContext,
}

/// The header of an announce of the destination: a broadcast announce of a single
/// destination that has made no hop, goes through no transport node and has no
/// context.
pub fn announce_header(destination_hash: [u8; 16]) -> (r: AnnounceHeader)
    ensures
        r.header_type == AnnounceHeaderType::Header1,
        !r.context_flag,
        r.transport_type == AnnounceTransport::Broadcast,
        r.destination_type == AnnounceDestination::Single,
        r.packet_type == AnnouncePacket::Announce,
        r.hops == 0,
        r.transport_id is None,
        r.destination_hash == destination_hash,
        r.context == AnnounceContext::Absent,
{
    AnnounceHeader {
        header_type: AnnounceHeaderType::Header1,
        context_flag: false,
        transport_type: AnnounceTransport::Broadcast,
        destination_type: AnnounceDestination::Single,
        packet_type: AnnouncePacket::Announce,
        hops: 0,
        transport_id: None,
        destination_hash,
        context: AnnounceContext::Absent,
    }
}

/// When a node announces itself.
#[derive(Clone, Copy, Debug)]
pub struct AnnouncePlan {
    /// Announce once the node has started?
    pub at_start: bool,
    /// How long after the start the first periodic announce is due, if any is.
    pub first_after: Option<AnnounceInterval>,
    /// How long after one periodic announce the next is due.
    pub then_every: Option<AnnounceInterval>,
}

/// When a node with this configuration announces itself. A periodic announce is
/// due a whole interval after the start, so that nothing is announced at the start
/// unless the configuration asks for it.
pub fn announce_plan(config: &NomadNodeConfig) -> (r: AnnouncePlan)
    ensures
        r.at_start == config.announce_at_start,
        r.first_after == config.announce_interval,
        r.then_every == config.announce_interval,
{
    AnnouncePlan {
        at_start: config.announce_at_start,
        first_after: config.announce_interval,
        then_every: config.announce_interval,
    }
}

/// How an attempt to send an announce ended.
#[derive(Debug)]
pub enum SendEvent {
    /// The packet could not be built.
    NotBuilt(NomadError),
    /// The transport took the packet.
    Sent,
    /// The transport is gone.
    Closed,
    /// The transport did not take the packet in time.
    TimedOut,
}

/// What the caller of an announce is told.
pub open spec fn told(event: SendEvent) -> Result<(), ErrorView> {
    match event {
        SendEvent::NotBuilt(e) => Err(e@),
        SendEvent::Sent => Ok(()),
        SendEvent::Closed => Err(ErrorView::Message("transport channel closed"@)),
        SendEvent::TimedOut => Err(ErrorView::Message("announce send timed out"@)),
    }
}

/// Does the periodic announce go on? It ends for good with the transport, and
/// with an error that speaks of it.
pub open spec fn goes_on(event: SendEvent) -> bool {
    match event {
        SendEvent::TimedOut => true,
        _ => match told(event) {
            Ok(_) => true,
            Err(e) => !text::contains_run(error::error_text(e), "transport channel closed"@),
        },
    }
}

/// What the caller of an announce is told.
pub fn announce_result(event: SendEvent) -> (r: Result<(), NomadError>)
    ensures
        match r {
            Ok(_) => told(event) is Ok,
            Err(e) => told(event) == Err::<(), ErrorView>(e@),
        },
{
    match event {
        SendEvent::NotBuilt(e) => Err(e),
        SendEvent::Sent => Ok(()),
        SendEvent::Closed => Err(NomadError::message("transport channel closed")),
        SendEvent::TimedOut => Err(NomadError::message("announce send timed out")),
    }
}

/// Does the periodic announce go on?
pub fn keeps_announcing(event: SendEvent) -> (r: bool)
    ensures
        r == goes_on(event),
{
    match event {
        SendEvent::TimedOut => true,
        event => match announce_result(event) {
            Ok(_) => true,
            Err(e) => {
                let told = e.describe();
                !has_run(told.as_str(), "transport channel closed")
            },
        },
    }
}

/// What is announced never exceeds the cap, is the start of the trimmed name,
/// and is all of it where that fits.
pub proof fn law_announced_names_are_capped(name: Seq<char>)
    ensures
        text::utf8_len(announced_name(name)) <= MAX_ANNOUNCE_NAME_BYTES,
        announced_name(name).is_prefix_of(text::trimmed(name)),
        text::utf8_len(text::trimmed(name)) <= MAX_ANNOUNCE_NAME_BYTES ==> announced_name(name)
            == text::trimmed(name),
{
    text::lemma_byte_prefix(text::trimmed(name), MAX_ANNOUNCE_NAME_BYTES as nat);
}

/// A closed transport ends the periodic announce; a timeout does not.
pub proof fn law_only_lasting_failures_end_the_announces()
    ensures
        !goes_on(SendEvent::Closed),
        goes_on(SendEvent::TimedOut),
        goes_on(SendEvent::Sent),
{
    let s = "transport channel closed"@;
    assert(text::run_at(s, s, 0)) by {
        assert(s.subrange(0, s.len() as int) =~= s);
    }
}

/// An announce carries the name: the UTF-8 bytes of the trimmed name, all of them
/// where they are at most 256, and where not, of the start of the name that leaves
/// fewer than four of 256 bytes free. Without a name, or with a blank one, it carries
/// none.
pub proof fn law_announces_carry_the_name(name: Seq<char>)
    ensures
        app_data(None) is None,
        app_data(Some(name)) is None <==> text::trimmed(name).len() == 0,
        text::trimmed(name).len() > 0 && encode_utf8(text::trimmed(name)).len() <= 256 ==> app_data(
            Some(name),
        ) == Some(encode_utf8(text::trimmed(name))),
        encode_utf8(text::trimmed(name)).len() > 256 ==> exists|n: int|
            {
                let start = #[trigger] text::trimmed(name).take(n);
                &&& 0 < n < text::trimmed(name).len()
                &&& app_data(Some(name)) == Some(encode_utf8(start))
                &&& 252 < encode_utf8(start).len() <= 256
            },
{
    let all = text::trimmed(name);
    let kept = announced_name(name);
    text::law_byte_prefix_fills_the_room(all, 256);
    if all.len() > 0 && kept.len() == 0 {
        assert(kept =~= Seq::<char>::empty());
        assert(encode_utf8(kept).len() == 0);
    }
    if all.len() == 0 {
        assert(encode_utf8(all).len() == 0);
    }
    if encode_utf8(all).len() > 256 {
        let n = kept.len() as int;
        assert(kept == all.take(n));
        if n >= all.len() {
            assert(all.take(n) =~= all);
        }
        assert(0 < n < all.len());
    }
}

/// What the caller of an announce is told: nothing went wrong exactly if the
/// transport took the packet; what kept it from being built, if that failed. The
/// periodic announces go on unless that speaks of a closed transport channel.
pub proof fn law_failed_announces_are_told(e: NomadError)
    ensures
        told(SendEvent::Sent) is Ok,
        told(SendEvent::NotBuilt(e)) == Err::<(), ErrorView>(e@),
        told(SendEvent::Closed) == Err::<(), ErrorView>(
            ErrorView::Message("transport channel closed"@),
        ),
        told(SendEvent::TimedOut) == Err::<(), ErrorView>(
            ErrorView::Message("announce send timed out"@),
        ),
        goes_on(SendEvent::NotBuilt(e)) <==> !(exists|i: int|
            0 <= i <= error::error_text(e@).len() - "transport channel closed"@.len()
                && #[trigger] error::error_text(e@).subrange(
                i,
                i + "transport channel closed"@.len(),
            ) == "transport channel closed"@),
{
    let s = error::error_text(e@);
    let part = "transport channel closed"@;
    if text::contains_run(s, part) {
        let i = choose|i: int| #[trigger] text::run_at(s, part, i);
        assert(s.subrange(i, i + part.len()) == part);
    }
    if exists|i: int|
        0 <= i <= s.len() - part.len() && #[trigger] s.subrange(i, i + part.len()) == part {
        let i = choose|i: int|
            0 <= i <= s.len() - part.len() && #[trigger] s.subrange(i, i + part.len()) == part;
        assert(text::run_at(s, part, i));
    }
}

} // verus!
