//! The transport channel plan: one reliable channel, index 0, with a 500 ms
//! resend interval.
//!
//! Server and client must construct identical channel tables so that messages
//! sent on channel 0 arrive as channel 0 on the peer; the agreement is made
//! here, at configuration time, never negotiated on the wire.

use vstd::prelude::*;

use renet_udp::renet::channel::ReliableChannelConfig;

verus! {

/// How long, in milliseconds, the reliable channel waits before it resends an
/// unacknowledged message.
pub const RELIABLE_RESEND_MS: u64 = 500;

#[verifier::external_type_specification]
#[verifier::external_body]
pub struct ExReliableChannelConfig(ReliableChannelConfig);

/// Relies on renet's `ReliableChannelConfig` and its `Default`: this builds
/// one configuration record whose `message_resend_time` is `ms` milliseconds
/// and whose other fields keep renet's defaults (in particular `channel_id`
/// 0).
#[verifier::external_body]
fn reliable_channel_with_resend_ms(ms: u64) -> ReliableChannelConfig {
    ReliableChannelConfig {
        message_resend_time: std::time::Duration::from_millis(ms),
        ..Default::default()
    }
}

/// The channel table both ends declare: exactly one reliable channel, with
/// the 500 ms resend interval and otherwise-default behaviour.
pub fn reliable_channels_config() -> (r: Vec<ReliableChannelConfig>)
    ensures
        r@.len() == 1,
{
    let mut channels: Vec<ReliableChannelConfig> = Vec::new();
    channels.push(reliable_channel_with_resend_ms(RELIABLE_RESEND_MS));
    channels
}

} // verus!
