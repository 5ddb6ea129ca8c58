//! Live streaming to a paired receiver: the stream's audio settings, the
//! packet schedule of the synthetic test tone, and the decisions of the
//! pump that moves captured frames to the encoder queue.

use vstd::prelude::*;

use crate::pairing::PairingError;

verus! {

/// Why a stream could not be opened or driven.
#[derive(Debug)]
pub enum StreamError {
    Pairing(PairingError),
    Client(String),
    Encoder(String),
}

impl From<PairingError> for StreamError {
    fn from(e: PairingError) -> (r: StreamError) {
        StreamError::Pairing(e)
    }
}

impl vstd::std_specs::convert::FromSpecImpl<PairingError> for StreamError {
    open spec fn obeys_from_spec() -> bool {
        true
    }

    open spec fn from_spec(v: PairingError) -> StreamError {
        StreamError::Pairing(v)
    }
}

/// Slots of the PCM queue in front of the ALAC encoder; each slot holds
/// 10-20 ms of audio, so 64 slots give about a second of headroom, as much
/// as the capture side buffers.
pub const QUEUE_CAPACITY: usize = 64;

/// Seconds between RTSP feedback requests; receivers drop a session that
/// stays silent for about ten seconds.
pub const FEEDBACK_INTERVAL_SECS: u64 = 2;

/// Frames in one ALAC packet, and in one packet of the test tone.
pub const FRAMES_PER_PACKET: usize = 352;

/// The audio settings of a live stream.
#[derive(Debug, Clone, Copy)]
pub struct LiveStreamSettings {
    pub sample_rate: u32,
    pub bit_depth: u8,
    pub channels: u8,
    pub frames_per_packet: u32,
    pub realtime: bool,
    pub ntp_timing: bool,
    pub latency_min: u32,
    pub latency_max: u32,
    pub supports_dynamic_stream_id: bool,
}

/// The settings every live stream is opened with: ALAC at 44.1 kHz, 16 bit,
/// stereo, 352 frames per packet, real-time, NTP timing, and a receiver
/// buffer between 500 ms and 3 s (shorter buffers drain on Wi-Fi hiccups).
pub fn live_stream_settings() -> (s: LiveStreamSettings)
    ensures
        s.sample_rate == 44_100,
        s.bit_depth == 16,
        s.channels == 2,
        s.frames_per_packet == FRAMES_PER_PACKET,
        s.realtime,
        s.ntp_timing,
        s.supports_dynamic_stream_id,
        s.latency_min * 1000 == 500 * s.sample_rate,
        s.latency_max * 1000 == 3000 * s.sample_rate,
{
    LiveStreamSettings {
        sample_rate: 44_100,
        bit_depth: 16,
        channels: 2,
        frames_per_packet: 352,
        realtime: true,
        ntp_timing: true,
        latency_min: 22_050,
        latency_max: 132_300,
        supports_dynamic_stream_id: true,
    }
}

/// The number of frames in a tone of `duration_ms` milliseconds.
pub fn tone_total_frames(sample_rate: u32, duration_ms: u64) -> (n: usize)
    requires
        sample_rate * duration_ms <= u64::MAX,
        sample_rate * duration_ms / 1000 <= usize::MAX,
    ensures
        n == sample_rate * duration_ms / 1000,
{
    let total: u64 = (sample_rate as u64) * duration_ms / 1000;
    total as usize
}

/// The real-time length, in microseconds, of one packet of the tone.
pub fn tone_packet_micros(sample_rate: u32) -> (us: u64)
    requires
        sample_rate > 0,
    ensures
        us == FRAMES_PER_PACKET * 1_000_000 / (sample_rate as int),
{
    (FRAMES_PER_PACKET as u64 * 1_000_000) / (sample_rate as u64)
}

/// The packet sizes of `total` frames: full packets, then the remainder.
pub open spec fn tone_plan(total: nat) -> Seq<nat> {
    let q = total / (FRAMES_PER_PACKET as nat);
    let r = total % (FRAMES_PER_PACKET as nat);
    Seq::new(
        q + (if r > 0 {
            1nat
        } else {
            0nat
        }),
        |i: int|
            if i < q {
                FRAMES_PER_PACKET as nat
            } else {
                r
            },
    )
}

/// The sum of a sequence of packet sizes.
pub open spec fn total_of(s: Seq<nat>) -> nat
    decreases s.len(),
{
    if s.len() == 0 {
        0
    } else {
        total_of(s.drop_last()) + s.last()
    }
}

/// The sizes of the packets in which the tone is produced: `packet_frames`
/// = min(frames left, 352) until all frames are out.
pub fn tone_schedule(total_frames: usize) -> (plan: Vec<usize>)
    ensures
        plan@.map_values(|n: usize| n as nat) == tone_plan(total_frames as nat),
{
    let ghost spec_plan = tone_plan(total_frames as nat);
    let mut plan: Vec<usize> = Vec::new();
    let mut produced: usize = 0;
    while produced < total_frames
        invariant
            spec_plan == tone_plan(total_frames as nat),
            produced <= total_frames,
            produced == plan@.len() * FRAMES_PER_PACKET || produced == total_frames,
            produced < total_frames ==> produced == plan@.len() * FRAMES_PER_PACKET,
            plan@.len() <= spec_plan.len(),
            produced == total_frames ==> plan@.len() == spec_plan.len(),
            forall|i: int| 0 <= i < plan@.len() ==> plan@[i] as nat == #[trigger] spec_plan[i],
        decreases total_frames - produced,
    {
        let left = total_frames - produced;
        let packet = if left < FRAMES_PER_PACKET {
            left
        } else {
            FRAMES_PER_PACKET
        };
        proof {
            let k = plan@.len() as int;
            let q = total_frames as int / 352;
            let r = total_frames as int % 352;
            assert(produced == k * 352);
            assert(total_frames == q * 352 + r);
            if left < 352 {
                assert(k == q) by (nonlinear_arith)
                    requires
                        total_frames == q * 352 + r,
                        0 <= r < 352,
                        produced == k * 352,
                        0 < total_frames - produced < 352,
                ;
                assert(r == left);
            } else {
                assert(k < q) by (nonlinear_arith)
                    requires
                        total_frames == q * 352 + r,
                        0 <= r < 352,
                        produced == k * 352,
                        total_frames - produced >= 352,
                ;
            }
            assert(spec_plan[k] == packet as nat);
            if produced + packet == total_frames {
                if left >= 352 {
                    assert(total_frames == (k + 1) * 352) by (nonlinear_arith)
                        requires
                            produced == k * 352,
                            produced + 352 == total_frames,
                    ;
                    vstd::arithmetic::div_mod::lemma_fundamental_div_mod_converse(
                        total_frames as int,
                        352,
                        k + 1,
                        0,
                    );
                }
                assert(k + 1 == spec_plan.len());
            } else {
                assert(packet == 352);
                assert((k + 1) * 352 == k * 352 + 352) by (nonlinear_arith);
            }
        }
        plan.push(packet);
        produced += packet;
    }
    proof {
        if total_frames == 0 {
            assert(spec_plan.len() == 0);
        }
    }
    assert(plan@.map_values(|n: usize| n as nat) =~= spec_plan);
    plan
}

proof fn lemma_total_of_prefix(s: Seq<nat>, k: int)
    requires
        0 <= k < s.len(),
    ensures
        total_of(s.take(k + 1)) == total_of(s.take(k)) + s[k],
{
    assert(s.take(k + 1).drop_last() =~= s.take(k));
}

/// The tone schedule produces exactly the requested number of frames, in
/// non-empty packets of at most 352 frames, every one but the last full.
pub proof fn lemma_tone_plan(total: nat)
    ensures
        total_of(tone_plan(total)) == total,
        forall|i: int|
            0 <= i < tone_plan(total).len() ==> 0 < #[trigger] tone_plan(total)[i] <= FRAMES_PER_PACKET,
        forall|i: int|
            0 <= i < tone_plan(total).len() - 1 ==> #[trigger] tone_plan(total)[i] == FRAMES_PER_PACKET,
{
    let p = tone_plan(total);
    let q = total / 352;
    let r = total % 352;
    assert forall|k: int| 0 <= k <= q implies #[trigger] total_of(p.take(k)) == k * 352 by {
        lemma_total_of_full(p, q, k);
    }
    if r > 0 {
        lemma_total_of_prefix(p, q as int);
        assert(p.take(q as int + 1) =~= p);
    } else {
        assert(p.take(q as int) =~= p);
    }
}

proof fn lemma_total_of_full(p: Seq<nat>, q: nat, k: int)
    requires
        0 <= k <= q,
        q <= p.len(),
        forall|i: int| 0 <= i < q ==> p[i] == 352,
    ensures
        total_of(p.take(k)) == k * 352,
    decreases k,
{
    if k == 0 {
        assert(p.take(0) =~= Seq::<nat>::empty());
    } else {
        lemma_total_of_full(p, q, k - 1);
        lemma_total_of_prefix(p, k - 1);
    }
}

/// A block of PCM for the encoder queue.
#[derive(Debug)]
pub struct PcmPacket {
    pub samples: Vec<i16>,
    pub channels: u8,
    pub sample_rate: u32,
}

/// What the capture channel delivered to the pump.
#[derive(Debug)]
pub enum PumpEvent {
    Frame(Vec<i16>),
    Timeout,
    Disconnected,
}

/// What the pump does next.
#[derive(Debug)]
pub enum PumpStep {
    /// Queue this packet for the encoder (dropped if the queue is full).
    Forward(PcmPacket),
    /// Nothing arrived yet: look again.
    Wait,
    /// The capture ended without being asked to: stop and report it.
    CaptureLost,
}

/// The pump's response to one event of the capture channel: frames go on
/// in the stream's format, a timeout waits again, a closed channel ends the
/// pump as an unexpected loss of capture.
pub fn pump_step(event: PumpEvent, channels: u8, sample_rate: u32) -> (step: PumpStep)
    ensures
        match event {
            PumpEvent::Frame(s) => step matches PumpStep::Forward(p) && p.samples@ == s@
                && p.channels == channels && p.sample_rate == sample_rate,
            PumpEvent::Timeout => step is Wait,
            PumpEvent::Disconnected => step is CaptureLost,
        },
{
    match event {
        PumpEvent::Frame(samples) => PumpStep::Forward(PcmPacket { samples, channels, sample_rate }),
        PumpEvent::Timeout => PumpStep::Wait,
        PumpEvent::Disconnected => PumpStep::CaptureLost,
    }
}

} // verus!
