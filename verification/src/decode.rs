//! Decode-loop policy.
//!
//! Audio decoding itself is an external collaborator: packets are pulled
//! from the demuxer in file order and handed to the decoder. What the
//! library owns is the recovery policy — which events end the stream, which
//! are skipped, and which are fatal. The caller's loop reports each event
//! and performs the action these functions decide.

use vstd::prelude::*;

verus! {

/// What happened when the next packet was requested.
pub enum PacketEvent {
    /// A packet arrived; whether it belongs to the selected track.
    Packet { matches_track: bool },
    /// The track list changed mid-stream and decoding would have to restart.
    ResetRequired,
    /// The source ended.
    EndOfStream,
    /// Reading the packet failed for another reason.
    ReadError,
}

/// What to do about a packet event.
pub enum PacketAction {
    /// Hand the packet to the decoder.
    Decode,
    /// Drop the packet and pull the next one.
    Skip,
    /// Stop cleanly; the samples gathered so far are the result.
    Finish,
    /// Stop: a mid-stream reset is unsupported.
    FailUnsupported,
    /// Stop: the source is unreadable.
    FailRead,
}

/// What happened when a packet was handed to the decoder.
pub enum DecodeEvent {
    /// Samples came out.
    Decoded,
    /// The packet could not be read by the decoder.
    IoError,
    /// The packet held invalid data.
    BadData,
    /// The decoder failed in a way that cannot be recovered.
    Unrecoverable,
}

/// What to do about a decode event.
pub enum DecodeAction {
    /// Append the decoded samples to the sequence.
    Append,
    /// Skip this packet and continue with the next.
    Skip,
    /// Stop: decoding cannot continue.
    Fail,
}

/// Policy for packet events: only a matching packet is decoded, a foreign
/// one is skipped, end of stream finishes cleanly, a required reset is
/// unsupported, and any other read failure is fatal.
pub fn packet_action(e: &PacketEvent) -> (a: PacketAction)
    ensures
        a == match e {
            PacketEvent::Packet { matches_track: true } => PacketAction::Decode,
            PacketEvent::Packet { matches_track: false } => PacketAction::Skip,
            PacketEvent::ResetRequired => PacketAction::FailUnsupported,
            PacketEvent::EndOfStream => PacketAction::Finish,
            PacketEvent::ReadError => PacketAction::FailRead,
        },
{
    match e {
        PacketEvent::Packet { matches_track } => {
            if *matches_track {
                PacketAction::Decode
            } else {
                PacketAction::Skip
            }
        },
        PacketEvent::ResetRequired => PacketAction::FailUnsupported,
        PacketEvent::EndOfStream => PacketAction::Finish,
        PacketEvent::ReadError => PacketAction::FailRead,
    }
}

/// Policy for decoder outcomes: decoded samples are appended, a packet that
/// fails with an I/O or data error is skipped and decoding continues, and
/// anything else halts decoding.
pub fn decode_action(e: &DecodeEvent) -> (a: DecodeAction)
    ensures
        a == match e {
            DecodeEvent::Decoded => DecodeAction::Append,
            DecodeEvent::IoError => DecodeAction::Skip,
            DecodeEvent::BadData => DecodeAction::Skip,
            DecodeEvent::Unrecoverable => DecodeAction::Fail,
        },
{
    match e {
        DecodeEvent::Decoded => DecodeAction::Append,
        DecodeEvent::IoError => DecodeAction::Skip,
        DecodeEvent::BadData => DecodeAction::Skip,
        DecodeEvent::Unrecoverable => DecodeAction::Fail,
    }
}

} // verus!
