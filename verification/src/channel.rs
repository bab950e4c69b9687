//! One device ingestion channel: its configuration, its lifecycle flag, and
//! the reader-loop computation that turns raw bytes into buffered samples.
//!
//! The channel owns a line framer and a sample buffer. Feeding it a chunk of
//! device bytes frames them, parses each frame as a decimal value, applies
//! the linear remap when enabled, and appends the results to the buffer;
//! frames that do not parse are line noise and are dropped silently. The
//! blocking device read itself, the reader task and its cooperative
//! cancellation live with the embedding program: it must only start a reader
//! once `start` succeeds and join it before `stop` completes.

use crate::buffer::SampleBuffer;
use crate::framer::{frames_of, LineFramer};
use crate::parse::{parse_micros, valid_number, value_micros, VALUE_LIMIT};
use crate::rat::{from_micros, rat_of_micros, remap, remap_rat, Rat};
use crate::{BaudRating, ComSetting};
use vstd::prelude::*;
use vstd::seq_lib::lemma_seq_skip_of_skip;

verus! {

/// A value range, in millionths of a unit; the lower bound is strictly
/// below the upper one.
#[derive(PartialEq, Eq, Structural, Clone, Copy, Debug)]
pub struct RangeSetting {
    pub start: i64,
    pub end: i64,
}

impl RangeSetting {
    pub open spec fn wf(&self) -> bool {
        -VALUE_LIMIT <= self.start && self.start < self.end && self.end <= VALUE_LIMIT
    }

    pub fn is_valid(&self) -> (r: bool)
        ensures
            r == self.wf(),
    {
        -VALUE_LIMIT <= self.start && self.start < self.end && self.end <= VALUE_LIMIT
    }
}

/// Everything the operator configures on one channel. Mutable only while
/// the channel is stopped.
#[derive(Clone)]
pub struct ChannelConfig {
    pub setting: ComSetting,
    pub enable_convert: bool,
    pub input_range: RangeSetting,
    pub output_range: RangeSetting,
}

impl ChannelConfig {
    pub open spec fn wf(&self) -> bool {
        &&& self.setting.wf()
        &&& self.input_range.wf()
        &&& self.output_range.wf()
    }

    pub fn is_valid(&self) -> (r: bool)
        ensures
            r == self.wf(),
    {
        self.setting.baud_rate > 0 && self.input_range.is_valid() && self.output_range.is_valid()
    }

    /// Lower display bound: the output range when remapping, else the
    /// input range.
    pub open spec fn display_lo(&self) -> int {
        if self.enable_convert {
            self.output_range.start as int
        } else {
            self.input_range.start as int
        }
    }

    pub open spec fn display_hi(&self) -> int {
        if self.enable_convert {
            self.output_range.end as int
        } else {
            self.input_range.end as int
        }
    }
}

/// The sample a parsed value of `m` millionths becomes under a
/// configuration: remapped when enabled, the raw value otherwise.
pub open spec fn sample_of(config: ChannelConfig, m: int) -> Rat {
    if config.enable_convert {
        remap_rat(
            m,
            config.input_range.start as int,
            config.input_range.end as int,
            config.output_range.start as int,
            config.output_range.end as int,
        )
    } else {
        rat_of_micros(m)
    }
}

/// The samples a sequence of frames contributes: one per frame that parses
/// as a value, in frame order; frames that do not parse contribute nothing.
pub open spec fn samples_of(frames: Seq<Seq<u8>>, config: ChannelConfig) -> Seq<Rat>
    decreases frames.len(),
{
    if frames.len() == 0 {
        Seq::empty()
    } else {
        (if valid_number(frames[0]) {
            seq![sample_of(config, value_micros(frames[0]))]
        } else {
            Seq::empty()
        }) + samples_of(frames.skip(1), config)
    }
}

proof fn lemma_samples_singleton(f: Seq<u8>, config: ChannelConfig)
    ensures
        valid_number(f) ==> samples_of(seq![f], config) == seq![
            sample_of(config, value_micros(f)),
        ],
        !valid_number(f) ==> samples_of(seq![f], config) == Seq::<Rat>::empty(),
{
    assert(seq![f].skip(1) =~= Seq::<Seq<u8>>::empty());
    assert(samples_of(seq![f].skip(1), config) =~= Seq::<Rat>::empty());
    assert(seq![f][0] == f);
    if valid_number(f) {
        assert(samples_of(seq![f], config) =~= seq![sample_of(config, value_micros(f))]);
    } else {
        assert(samples_of(seq![f], config) =~= Seq::<Rat>::empty());
    }
}

proof fn lemma_samples_concat(f1: Seq<Seq<u8>>, f2: Seq<Seq<u8>>, config: ChannelConfig)
    ensures
        samples_of(f1 + f2, config) == samples_of(f1, config) + samples_of(f2, config),
    decreases f1.len(),
{
    if f1.len() == 0 {
        assert(f1 + f2 =~= f2);
        assert(samples_of(f1, config) + samples_of(f2, config) =~= samples_of(f2, config));
    } else {
        assert((f1 + f2)[0] == f1[0]);
        assert((f1 + f2).skip(1) =~= f1.skip(1) + f2);
        lemma_samples_concat(f1.skip(1), f2, config);
        assert(samples_of(f1 + f2, config) =~= samples_of(f1, config) + samples_of(f2, config));
    }
}

/// With remapping disabled, a parsed value is buffered as itself: the
/// ranges play no part. Together with the contract of `set_config` — which
/// never touches the buffer — this is why disabling the remap restores raw
/// values for future samples without rewriting buffered history.
pub proof fn lemma_remap_off_is_raw(config: ChannelConfig, m: int)
    requires
        !config.enable_convert,
    ensures
        sample_of(config, m) == rat_of_micros(m),
{
}

/// With remapping disabled, the configured ranges do not influence the
/// samples a byte stream produces.
pub proof fn lemma_remap_off_ignores_ranges(
    frames: Seq<Seq<u8>>,
    c1: ChannelConfig,
    c2: ChannelConfig,
)
    requires
        !c1.enable_convert,
        !c2.enable_convert,
    ensures
        samples_of(frames, c1) == samples_of(frames, c2),
    decreases frames.len(),
{
    if frames.len() > 0 {
        lemma_remap_off_ignores_ranges(frames.skip(1), c1, c2);
        assert(samples_of(frames, c1) =~= samples_of(frames, c2));
    }
}

/// One independently configured and controlled device ingestion pipeline.
pub struct ChannelController {
    pub config: ChannelConfig,
    pub is_running: bool,
    pub framer: LineFramer,
    pub buffer: SampleBuffer,
}

impl ChannelController {
    pub open spec fn wf(&self) -> bool {
        &&& self.config.wf()
        &&& self.framer.wf()
        &&& self.buffer.wf()
    }

    /// A stopped channel for `port` with the default configuration:
    /// 115200 baud, input range 0 to 1024 units, output range 0 to 3.3
    /// units, remap disabled, and a window of `look_behind` samples.
    pub fn new(port: String, look_behind: usize) -> (r: ChannelController)
        requires
            look_behind >= 1,
        ensures
            r.wf(),
            !r.is_running,
            r.config.setting.port == port,
            r.config.setting.baud_rate == 115_200,
            !r.config.enable_convert,
            r.config.input_range == (RangeSetting { start: 0, end: 1_024_000_000 }),
            r.config.output_range == (RangeSetting { start: 0, end: 3_300_000 }),
            r.buffer.cap == look_behind,
            r.buffer.history@ == Seq::<Rat>::empty(),
            r.framer.fed@ == Seq::<u8>::empty(),
    {
        ChannelController {
            config: ChannelConfig {
                setting: ComSetting { port, baud_rate: BaudRating::B115_200.rate() },
                enable_convert: false,
                input_range: RangeSetting { start: 0, end: 1_024_000_000 },
                output_range: RangeSetting { start: 0, end: 3_300_000 },
            },
            is_running: false,
            framer: LineFramer::new(),
            buffer: SampleBuffer::new(look_behind),
        }
    }

    /// The start transition: valid only from stopped and with a device
    /// selected. On success the channel is running and the embedding
    /// program may open the device and spawn the reader; if the open then
    /// fails, it must call `stop` so the channel remains stopped.
    pub fn start(&mut self) -> (r: bool)
        ensures
            r == (!old(self).is_running && old(self).config.setting.port@.len() > 0),
            r ==> final(self).is_running && final(self).config == old(self).config
                && final(self).framer == old(self).framer
                && final(self).buffer == old(self).buffer,
            !r ==> *final(self) == *old(self),
    {
        if !self.is_running && !self.config.setting.port.as_str().is_empty() {
            self.is_running = true;
            true
        } else {
            false
        }
    }

    /// The stop transition: the channel is stopped afterwards, whatever
    /// state it was in. The embedding program signals its reader and joins
    /// it before calling this, so that no reader outlives a stopped
    /// channel; the same call reconciles the flag after a fatal device
    /// error ended a reader on its own.
    pub fn stop(&mut self)
        ensures
            !final(self).is_running,
            final(self).config == old(self).config,
            final(self).framer == old(self).framer,
            final(self).buffer == old(self).buffer,
    {
        self.is_running = false;
    }

    /// Replaces the configuration. Rejected while the channel runs — the
    /// correctness backstop behind the edit affordances — and for an
    /// ill-formed configuration. The buffer is never touched: a
    /// configuration change is not retroactive.
    pub fn set_config(&mut self, config: ChannelConfig) -> (r: bool)
        ensures
            r == (!old(self).is_running && config.wf()),
            r ==> final(self).config == config && final(self).is_running == old(self).is_running
                && final(self).framer == old(self).framer
                && final(self).buffer == old(self).buffer,
            !r ==> *final(self) == *old(self),
    {
        if !self.is_running && config.is_valid() {
            self.config = config;
            true
        } else {
            false
        }
    }

    /// Changes the sample window size; allowed at any time, also while
    /// running. Rejected only for a zero size.
    pub fn set_look_behind(&mut self, n: usize) -> (r: bool)
        requires
            old(self).wf(),
        ensures
            r == (n >= 1),
            final(self).wf(),
            final(self).config == old(self).config,
            final(self).is_running == old(self).is_running,
            final(self).framer == old(self).framer,
            final(self).buffer.history@ == old(self).buffer.history@,
            r ==> final(self).buffer.cap == n,
            !r ==> *final(self) == *old(self),
    {
        if n >= 1 {
            self.buffer.set_capacity(n);
            true
        } else {
            false
        }
    }

    /// The bounds the rendering consumer scales its axis with.
    pub fn display_bounds(&self) -> (r: (i64, i64))
        ensures
            r.0 == self.config.display_lo(),
            r.1 == self.config.display_hi(),
    {
        if self.config.enable_convert {
            (self.config.output_range.start, self.config.output_range.end)
        } else {
            (self.config.input_range.start, self.config.input_range.end)
        }
    }

    /// One reader-loop step without the device read: feeds a chunk of raw
    /// bytes through the framer and appends every sample the completed
    /// frames yield, under the current configuration, in arrival order.
    pub fn ingest(&mut self, chunk: &Vec<u8>)
        requires
            old(self).wf(),
        ensures
            final(self).wf(),
            final(self).config == old(self).config,
            final(self).is_running == old(self).is_running,
            final(self).buffer.cap == old(self).buffer.cap,
            final(self).framer.fed@ == old(self).framer.fed@ + chunk@,
            frames_of(final(self).framer.acc@).len() == 0,
            final(self).buffer.history@ == old(self).buffer.history@ + samples_of(
                frames_of(old(self).framer.acc@ + chunk@),
                old(self).config,
            ),
    {
        let ghost f_all = frames_of(old(self).framer.acc@ + chunk@);
        let ghost cfg = old(self).config;
        self.framer.push(chunk);
        let ghost mut k: int = 0;
        proof {
            assert(f_all.take(0) =~= Seq::<Seq<u8>>::empty());
            assert(self.buffer.history@ =~= old(self).buffer.history@ + samples_of(
                f_all.take(0),
                cfg,
            ));
            assert(f_all.skip(0) =~= f_all);
        }
        let mut more = true;
        while more
            invariant
                self.framer.wf(),
                self.buffer.wf(),
                self.config == old(self).config,
                self.config.wf(),
                self.is_running == old(self).is_running,
                self.buffer.cap == old(self).buffer.cap,
                self.framer.fed@ == old(self).framer.fed@ + chunk@,
                cfg == old(self).config,
                0 <= k <= f_all.len(),
                frames_of(self.framer.acc@) == f_all.skip(k),
                self.buffer.history@ == old(self).buffer.history@ + samples_of(
                    f_all.take(k),
                    cfg,
                ),
                !more ==> frames_of(self.framer.acc@).len() == 0,
            decreases f_all.len() - k + (if more {
                1int
            } else {
                0int
            }),
        {
            let next = self.framer.next_frame();
            match next {
                None => {
                    more = false;
                }
                Some(frame) => {
                    proof {
                        assert(frame@ == f_all.skip(k)[0]);
                        assert(f_all.skip(k)[0] == f_all[k]);
                        lemma_seq_skip_of_skip(f_all, k, 1);
                        assert(frames_of(self.framer.acc@) =~= f_all.skip(k + 1));
                    }
                    let parsed = parse_micros(&frame);
                    match parsed {
                        Some(m) => {
                            let val = if self.config.enable_convert {
                                remap(
                                    m,
                                    self.config.input_range.start,
                                    self.config.input_range.end,
                                    self.config.output_range.start,
                                    self.config.output_range.end,
                                )
                            } else {
                                from_micros(m)
                            };
                            proof {
                                assert(val == sample_of(cfg, value_micros(frame@)));
                            }
                            self.buffer.append(val);
                        }
                        None => {
                        }
                    }
                    proof {
                        assert(f_all.take(k + 1) =~= f_all.take(k) + seq![f_all[k]]);
                        lemma_samples_concat(f_all.take(k), seq![f_all[k]], cfg);
                        lemma_samples_singleton(f_all[k], cfg);
                        assert(self.buffer.history@ =~= old(self).buffer.history@ + samples_of(
                            f_all.take(k + 1),
                            cfg,
                        ));
                        k = k + 1;
                    }
                }
            }
        }
        proof {
            assert(k == f_all.len());
            assert(f_all.take(k) =~= f_all);
        }
    }
}

} // verus!
