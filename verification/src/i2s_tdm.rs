//! Portable core of the RK3588 I2S/TDM controller used by the Orange Pi 5 Plus
//! ES8388 capture path: format checks, the register programme the controller
//! is configured with, interrupt decoding, and the PCM sample ring.
//!
//! The MMIO mapping itself is owned by the caller: the controller here decides
//! which registers to write and with what, and the caller performs the writes
//! and hands back what it read.

use vstd::prelude::*;

verus! {

pub const RK3588_I2S_TDM_BASE: usize = 0xfe47_0000;
pub const RK3588_I2S_TDM_IRQ: u32 = 0xb4;
pub const RK3588_I2S_TDM_REGISTER_SIZE: usize = 0x1000;

pub const TXCR: usize = 0x000;
pub const RXCR: usize = 0x004;
pub const CKR: usize = 0x008;
pub const DMACR: usize = 0x010;
pub const INTCR: usize = 0x014;
pub const INTSR: usize = 0x018;
pub const XFER: usize = 0x01c;
pub const CLR: usize = 0x020;
pub const RXFIFOLR: usize = 0x02c;

pub const XFER_RX_START: u32 = 2;
pub const RXCR_VDW_16_BIT: u32 = 15;
pub const RXCR_CSR_TWO_SLOTS: u32 = 0;
pub const INT_RX_READY: u32 = 0x1_0000;
pub const INT_RX_OVERFLOW: u32 = 0x2_0000;
pub const INT_RX_OVERFLOW_CLEAR: u32 = 0x4_0000;
pub const DMACR_RX_ENABLE: u32 = 0x100_0000;
pub const DMACR_RX_LEVEL: u32 = 0x10_0000;
pub const INT_RX_THRESHOLD: u32 = 0x100_0000;
pub const INT_RX_ENABLE: u32 = 0x1_0000;
pub const INT_RX_OVERFLOW_ENABLE: u32 = 0x2_0000;

/// Why a capture configuration was refused.
#[derive(Debug, Clone, Copy, PartialEq, Eq, Structural)]
pub enum AudioConfigError {
    /// Only mono capture is supported.
    UnsupportedChannels,
    /// Only 16-bit PCM is supported.
    UnsupportedSampleWidth,
    /// Only 16 kHz and 48 kHz capture are supported.
    UnsupportedSampleRate,
    /// I2S clock dividers must be non-zero.
    InvalidClockDividers,
}

impl AudioConfigError {
    /// The human-readable description of the error.
    pub fn message(&self) -> (s: &'static str)
        ensures
            s@ == match self {
                AudioConfigError::UnsupportedChannels => "only mono capture is supported in the first implementation"@,
                AudioConfigError::UnsupportedSampleWidth => "only 16-bit PCM is supported in the first implementation"@,
                AudioConfigError::UnsupportedSampleRate => "only 16 kHz and 48 kHz capture are supported in the first implementation"@,
                AudioConfigError::InvalidClockDividers => "I2S clock dividers must be non-zero"@,
            },
    {
        match self {
            AudioConfigError::UnsupportedChannels => "only mono capture is supported in the first implementation",
            AudioConfigError::UnsupportedSampleWidth => "only 16-bit PCM is supported in the first implementation",
            AudioConfigError::UnsupportedSampleRate => "only 16 kHz and 48 kHz capture are supported in the first implementation",
            AudioConfigError::InvalidClockDividers => "I2S clock dividers must be non-zero",
        }
    }
}

/// The PCM shape a capture stream is asked for.
#[derive(Debug, Clone, Copy, PartialEq, Eq, Structural)]
pub struct CaptureFormat {
    pub sample_rate_hz: u32,
    pub channels: u8,
    pub sample_width_bits: u8,
}

/// The three clock dividers of the `CKR` register.
#[derive(Debug, Clone, Copy, PartialEq, Eq, Structural)]
pub struct ClockDividers {
    pub mclk_div: u8,
    pub rx_bclk_div: u8,
    pub tx_bclk_div: u8,
}

/// The value `CKR` takes for the given dividers: each divider minus one,
/// MCLK in bits 16..24, RX BCLK in bits 8..16, TX BCLK in bits 0..8.
pub open spec fn ckr_value(c: ClockDividers) -> u32 {
    (((c.mclk_div - 1) as u32) << 16u32) | (((c.rx_bclk_div - 1) as u32) << 8u32) | ((c.tx_bclk_div - 1) as u32)
}

impl ClockDividers {
    /// All three dividers are non-zero.
    pub open spec fn spec_valid(self) -> bool {
        self.mclk_div != 0 && self.rx_bclk_div != 0 && self.tx_bclk_div != 0
    }

    pub fn validate(self) -> (ok: bool)
        ensures
            ok == self.spec_valid(),
    {
        self.mclk_div != 0 && self.rx_bclk_div != 0 && self.tx_bclk_div != 0
    }

    fn register_value(self) -> (v: u32)
        requires
            self.spec_valid(),
        ensures
            v == ckr_value(self),
    {
        (((self.mclk_div - 1) as u32) << 16u32) | (((self.rx_bclk_div - 1) as u32) << 8u32) | ((
        self.tx_bclk_div - 1) as u32)
    }
}

/// What `validate` decides for a format: channels are checked first, then
/// the sample width, then the sample rate.
pub open spec fn spec_validate(f: CaptureFormat) -> Result<CaptureFormat, AudioConfigError> {
    if f.channels != 1 {
        Err(AudioConfigError::UnsupportedChannels)
    } else if f.sample_width_bits != 16 {
        Err(AudioConfigError::UnsupportedSampleWidth)
    } else if f.sample_rate_hz != 16_000 && f.sample_rate_hz != 48_000 {
        Err(AudioConfigError::UnsupportedSampleRate)
    } else {
        Ok(f)
    }
}

impl CaptureFormat {
    /// Mono, 16-bit, 16 kHz.
    pub fn mono_16k() -> (f: Self)
        ensures
            f == (CaptureFormat { sample_rate_hz: 16_000, channels: 1, sample_width_bits: 16 }),
    {
        CaptureFormat { sample_rate_hz: 16_000, channels: 1, sample_width_bits: 16 }
    }

    /// Mono, 16-bit, 48 kHz.
    pub fn mono_48k() -> (f: Self)
        ensures
            f == (CaptureFormat { sample_rate_hz: 48_000, channels: 1, sample_width_bits: 16 }),
    {
        CaptureFormat { sample_rate_hz: 48_000, channels: 1, sample_width_bits: 16 }
    }

    pub fn validate(self) -> (r: Result<Self, AudioConfigError>)
        ensures
            r == spec_validate(self),
    {
        if self.channels != 1 {
            return Err(AudioConfigError::UnsupportedChannels);
        }
        if self.sample_width_bits != 16 {
            return Err(AudioConfigError::UnsupportedSampleWidth);
        }
        if self.sample_rate_hz != 16_000 && self.sample_rate_hz != 48_000 {
            return Err(AudioConfigError::UnsupportedSampleRate);
        }
        Ok(self)
    }
}

/// What an interrupt reported.
#[derive(Debug, Clone, Copy, PartialEq, Eq, Structural)]
pub enum IrqEvent {
    NoEvent,
    RxReady,
    RxOverflow,
}

/// One 32-bit register write at a byte offset into the register file.
#[derive(Debug, Clone, Copy, PartialEq, Eq, Structural)]
pub struct RegisterWrite {
    pub offset: usize,
    pub value: u32,
}

/// The register writes that configure capture, in order.
pub open spec fn capture_programme(clock: ClockDividers) -> Seq<RegisterWrite> {
    seq![
        RegisterWrite { offset: TXCR, value: 0 },
        RegisterWrite { offset: RXCR, value: RXCR_CSR_TWO_SLOTS | RXCR_VDW_16_BIT },
        RegisterWrite { offset: CKR, value: ckr_value(clock) },
        RegisterWrite { offset: RXFIFOLR, value: 0 },
        RegisterWrite { offset: DMACR, value: DMACR_RX_ENABLE | DMACR_RX_LEVEL },
        RegisterWrite {
            offset: INTCR,
            value: INT_RX_THRESHOLD | INT_RX_ENABLE | INT_RX_OVERFLOW_ENABLE | INT_RX_OVERFLOW_CLEAR,
        },
        RegisterWrite { offset: CLR, value: 2 },
    ]
}

/// The event an interrupt status word reports: overflow wins over ready.
pub open spec fn irq_event(status: u32) -> IrqEvent {
    if status & INT_RX_OVERFLOW != 0 {
        IrqEvent::RxOverflow
    } else if status & INT_RX_READY != 0 {
        IrqEvent::RxReady
    } else {
        IrqEvent::NoEvent
    }
}

/// Register-level controller for one capture format. The caller owns the
/// MMIO mapping, performs the writes this controller asks for, and must
/// serialise task-context register access against interrupt code.
pub struct I2sTdmController {
    format: CaptureFormat,
}

impl I2sTdmController {
    pub closed spec fn spec_format(&self) -> CaptureFormat {
        self.format
    }

    /// A controller for `format`, once the format has been validated.
    pub fn new(format: CaptureFormat) -> (r: Result<Self, AudioConfigError>)
        ensures
            match spec_validate(format) {
                Ok(f) => r matches Ok(c) && c.spec_format() == f,
                Err(e) => r == Err::<Self, AudioConfigError>(e),
            },
    {
        match format.validate() {
            Ok(f) => Ok(I2sTdmController { format: f }),
            Err(e) => Err(e),
        }
    }

    pub fn format(&self) -> (f: CaptureFormat)
        ensures
            f == self.spec_format(),
    {
        self.format
    }

    /// The register writes that set up capture with the given dividers;
    /// refused when a divider is zero.
    pub fn configure_capture(&mut self, clock: ClockDividers) -> (r: Result<Vec<RegisterWrite>, AudioConfigError>)
        ensures
            final(self).spec_format() == old(self).spec_format(),
            clock.spec_valid() ==> (r matches Ok(w) && w@ == capture_programme(clock)),
            !clock.spec_valid() ==> r matches Err(AudioConfigError::InvalidClockDividers),
    {
        if !clock.validate() {
            return Err(AudioConfigError::InvalidClockDividers);
        }
        let mut w: Vec<RegisterWrite> = Vec::new();
        w.push(RegisterWrite { offset: TXCR, value: 0 });
        w.push(RegisterWrite { offset: RXCR, value: RXCR_CSR_TWO_SLOTS | RXCR_VDW_16_BIT });
        w.push(RegisterWrite { offset: CKR, value: clock.register_value() });
        w.push(RegisterWrite { offset: RXFIFOLR, value: 0 });
        w.push(RegisterWrite { offset: DMACR, value: DMACR_RX_ENABLE | DMACR_RX_LEVEL });
        w.push(
            RegisterWrite {
                offset: INTCR,
                value: INT_RX_THRESHOLD | INT_RX_ENABLE | INT_RX_OVERFLOW_ENABLE
                    | INT_RX_OVERFLOW_CLEAR,
            },
        );
        w.push(RegisterWrite { offset: CLR, value: 2 });
        assert(w@ =~= capture_programme(clock));
        Ok(w)
    }

    /// The write that starts the receive transfer.
    pub fn start_capture(&mut self) -> (w: RegisterWrite)
        ensures
            final(self).spec_format() == old(self).spec_format(),
            w == (RegisterWrite { offset: XFER, value: XFER_RX_START }),
    {
        RegisterWrite { offset: XFER, value: XFER_RX_START }
    }

    /// The write that stops every transfer.
    pub fn stop_capture(&mut self) -> (w: RegisterWrite)
        ensures
            final(self).spec_format() == old(self).spec_format(),
            w == (RegisterWrite { offset: XFER, value: 0 }),
    {
        RegisterWrite { offset: XFER, value: 0 }
    }

    /// Decodes the `INTSR` word the caller read: the returned write clears
    /// every reported bit, and the event says what happened.
    pub fn handle_irq(&mut self, status: u32) -> (r: (RegisterWrite, IrqEvent))
        ensures
            final(self).spec_format() == old(self).spec_format(),
            r.0 == (RegisterWrite { offset: CLR, value: status }),
            r.1 == irq_event(status),
    {
        let ack = RegisterWrite { offset: CLR, value: status };
        if status & INT_RX_OVERFLOW != 0 {
            (ack, IrqEvent::RxOverflow)
        } else if status & INT_RX_READY != 0 {
            (ack, IrqEvent::RxReady)
        } else {
            (ack, IrqEvent::NoEvent)
        }
    }
}

/// Why a ring operation did not happen.
#[derive(Debug, Clone, Copy, PartialEq, Eq, Structural)]
pub enum RingError {
    Full,
    Empty,
}

/// Single-producer (DMA/IRQ) and single-consumer (read) PCM ring holding at
/// most `CAPACITY` samples.
pub struct PcmRing<const CAPACITY: usize> {
    samples: Vec<i16>,
    read: usize,
    write: usize,
    len: usize,
    overruns: usize,
}

impl<const CAPACITY: usize> PcmRing<CAPACITY> {
    /// The ring's storage is consistent: `len` samples starting at `read`,
    /// wrapping around, with `write` just past the newest one.
    pub closed spec fn wf(&self) -> bool {
        &&& self.samples@.len() == CAPACITY
        &&& self.len <= CAPACITY
        &&& CAPACITY == 0 ==> self.read == 0 && self.write == 0
        &&& CAPACITY > 0 ==> self.read < CAPACITY && self.write == (self.read + self.len) % (CAPACITY as int)
    }

    /// The buffered samples, oldest first.
    pub closed spec fn contents(&self) -> Seq<i16> {
        Seq::new(self.len as nat, |k: int| self.samples@[(self.read + k) % (CAPACITY as int)])
    }

    /// How many pushes were refused because the ring was full.
    pub closed spec fn overrun_count(&self) -> nat {
        self.overruns as nat
    }

    /// A well-formed ring never buffers more samples than it has room for.
    pub proof fn contents_fit_capacity(&self)
        requires
            self.wf(),
        ensures
            self.contents().len() <= CAPACITY,
    {
    }

    /// An empty ring.
    pub fn new() -> (r: Self)
        ensures
            r.wf(),
            r.contents() == Seq::<i16>::empty(),
            r.overrun_count() == 0,
    {
        let mut samples: Vec<i16> = Vec::new();
        let mut i: usize = 0;
        while i < CAPACITY
            invariant
                i <= CAPACITY,
                samples@.len() == i,
            decreases CAPACITY - i,
        {
            samples.push(0);
            i = i + 1;
        }
        let r = PcmRing { samples, read: 0, write: 0, len: 0, overruns: 0 };
        proof {
            if CAPACITY > 0 {
                vstd::arithmetic::div_mod::lemma_small_mod(0, CAPACITY as nat);
            }
        }
        assert(r.contents() =~= Seq::<i16>::empty());
        r
    }

    pub fn capacity(&self) -> (c: usize)
        ensures
            c == CAPACITY,
    {
        CAPACITY
    }

    pub fn available(&self) -> (n: usize)
        ensures
            n == self.contents().len(),
    {
        self.len
    }

    pub fn overruns(&self) -> (n: usize)
        ensures
            n == self.overrun_count(),
    {
        self.overruns
    }

    /// Appends a sample, or counts an overrun (saturating) when the ring is full.
    pub fn push(&mut self, sample: i16) -> (r: Result<(), RingError>)
        requires
            old(self).wf(),
        ensures
            final(self).wf(),
            old(self).contents().len() < CAPACITY ==> {
                &&& r == Ok::<(), RingError>(())
                &&& final(self).contents() == old(self).contents().push(sample)
                &&& final(self).overrun_count() == old(self).overrun_count()
            },
            old(self).contents().len() == CAPACITY ==> {
                &&& r == Err::<(), RingError>(RingError::Full)
                &&& final(self).contents() == old(self).contents()
                &&& final(self).overrun_count() == (if old(self).overrun_count() < usize::MAX {
                    old(self).overrun_count() + 1
                } else {
                    old(self).overrun_count()
                })
            },
    {
        if CAPACITY == 0 || self.len == CAPACITY {
            self.overruns = self.overruns.saturating_add(1);
            proof {
                assert(self.contents() =~= old(self).contents());
            }
            return Err(RingError::Full);
        }
        let ghost old_contents = self.contents();
        self.samples.set(self.write, sample);
        self.write = (self.write + 1) % CAPACITY;
        self.len = self.len + 1;
        proof {
            let cap = CAPACITY as int;
            assert forall|k: int| 0 <= k < self.len implies #[trigger] self.contents()[k]
                == old_contents.push(sample)[k] by {
                if k < self.len - 1 {
                    assert((self.read + k) % cap != old(self).write) by {
                        lemma_ring_index_distinct(self.read as int, k, (self.len - 1) as int, cap);
                    }
                } else {
                    assert((self.read + k) % cap == old(self).write);
                }
            }
            assert(self.write == (self.read + self.len) % cap) by {
                lemma_mod_succ(self.read + self.len - 1, cap);
            }
            assert(self.contents() =~= old_contents.push(sample));
        }
        Ok(())
    }

    /// Removes and returns the oldest sample.
    pub fn pop(&mut self) -> (r: Result<i16, RingError>)
        requires
            old(self).wf(),
        ensures
            final(self).wf(),
            final(self).overrun_count() == old(self).overrun_count(),
            old(self).contents().len() == 0 ==> {
                &&& r == Err::<i16, RingError>(RingError::Empty)
                &&& final(self).contents() == old(self).contents()
            },
            old(self).contents().len() > 0 ==> {
                &&& r == Ok::<i16, RingError>(old(self).contents()[0])
                &&& final(self).contents() == old(self).contents().drop_first()
            },
    {
        if self.len == 0 {
            return Err(RingError::Empty);
        }
        let ghost old_contents = self.contents();
        let sample = self.samples[self.read];
        assert(old_contents[0] == sample) by {
            vstd::arithmetic::div_mod::lemma_small_mod(self.read as nat, CAPACITY as nat);
        }
        self.read = (self.read + 1) % CAPACITY;
        self.len = self.len - 1;
        proof {
            let cap = CAPACITY as int;
            let r0 = old(self).read as int;
            assert forall|k: int| 0 <= k < self.len implies #[trigger] self.contents()[k]
                == old_contents.drop_first()[k] by {
                lemma_mod_shift(r0, k, cap);
            }
            assert(self.contents() =~= old_contents.drop_first());
            assert(self.write == (self.read + self.len) % cap) by {
                lemma_mod_shift(r0, self.len as int, cap);
            }
        }
        Ok(sample)
    }

    /// Moves as many of the oldest samples as fit into `output`, oldest
    /// first, and returns how many it moved.
    pub fn pop_slice(&mut self, output: &mut [i16]) -> (count: usize)
        requires
            old(self).wf(),
        ensures
            final(self).wf(),
            final(self).overrun_count() == old(self).overrun_count(),
            count == (if old(output)@.len() < old(self).contents().len() {
                old(output)@.len()
            } else {
                old(self).contents().len()
            }),
            final(self).contents() == old(self).contents().skip(count as int),
            final(output)@.len() == old(output)@.len(),
            forall|i: int| 0 <= i < count ==> final(output)@[i] == old(self).contents()[i],
            forall|i: int| count <= i < old(output)@.len() ==> final(output)@[i] == old(output)@[i],
    {
        let mut count: usize = 0;
        while count < output.len()
            invariant_except_break
                self.wf(),
                self.overrun_count() == old(self).overrun_count(),
                count <= output@.len(),
                output@.len() == old(output)@.len(),
                count <= old(self).contents().len(),
                self.contents() == old(self).contents().skip(count as int),
                forall|i: int| 0 <= i < count ==> output@[i] == old(self).contents()[i],
                forall|i: int| count <= i < output@.len() ==> output@[i] == old(output)@[i],
            ensures
                self.wf(),
                self.overrun_count() == old(self).overrun_count(),
                output@.len() == old(output)@.len(),
                count <= old(self).contents().len(),
                count <= output@.len(),
                count == output@.len() || count == old(self).contents().len(),
                self.contents() == old(self).contents().skip(count as int),
                forall|i: int| 0 <= i < count ==> output@[i] == old(self).contents()[i],
                forall|i: int| count <= i < output@.len() ==> output@[i] == old(output)@[i],
            decreases output@.len() - count,
        {
            let popped = self.pop();
            match popped {
                Ok(sample) => {
                    output[count] = sample;
                    count = count + 1;
                    assert(self.contents() =~= old(self).contents().skip(count as int));
                },
                Err(_) => {
                    break;
                },
            }
        }
        count
    }
}

proof fn lemma_mod_succ(x: int, m: int)
    requires
        m > 0,
        x >= 0,
    ensures
        (x % m + 1) % m == (x + 1) % m,
{
    vstd::arithmetic::div_mod::lemma_add_mod_noop(x, 1, m);
    vstd::arithmetic::div_mod::lemma_add_mod_noop_right(x % m, 1, m);
}

proof fn lemma_mod_shift(r: int, k: int, m: int)
    requires
        m > 0,
        0 <= r < m,
        k >= 0,
    ensures
        ((r + 1) % m + k) % m == (r + (k + 1)) % m,
{
    vstd::arithmetic::div_mod::lemma_add_mod_noop(r + 1, k, m);
    vstd::arithmetic::div_mod::lemma_add_mod_noop((r + 1) % m, k, m);
    vstd::arithmetic::div_mod::lemma_mod_twice(r + 1, m);
}

proof fn lemma_ring_index_distinct(r: int, k: int, n: int, m: int)
    requires
        m > 0,
        0 <= r < m,
        0 <= k < n,
        n < m,
    ensures
        (r + k) % m != (r + n) % m,
{
    vstd::arithmetic::div_mod::lemma_fundamental_div_mod(r + k, m);
    vstd::arithmetic::div_mod::lemma_fundamental_div_mod(r + n, m);
    if (r + k) % m == (r + n) % m {
        let qk = (r + k) / m;
        let qn = (r + n) / m;
        assert(m * (qn - qk) == n - k) by (nonlinear_arith)
            requires
                r + k == m * qk + (r + k) % m,
                r + n == m * qn + (r + n) % m,
                (r + k) % m == (r + n) % m,
        ;
        assert(false) by (nonlinear_arith)
            requires
                m * (qn - qk) == n - k,
                0 < n - k < m,
        ;
    }
}

/// The event of an interrupt follows its status bits alone: bit 17 (receive
/// overflow) reports an overflow whether or not bit 16 is set; otherwise
/// bit 16 (receive data ready) reports data; otherwise nothing happened.
pub proof fn irq_event_follows_status_bits(status: u32)
    ensures
        (status >> 17u32) & 1 == 1 ==> irq_event(status) == IrqEvent::RxOverflow,
        (status >> 17u32) & 1 == 0 && (status >> 16u32) & 1 == 1 ==> irq_event(status) == IrqEvent::RxReady,
        (status >> 17u32) & 1 == 0 && (status >> 16u32) & 1 == 0 ==> irq_event(status) == IrqEvent::NoEvent,
{
    assert((status & 0x2_0000u32 != 0) == ((status >> 17u32) & 1 == 1)) by (bit_vector);
    assert((status & 0x1_0000u32 != 0) == ((status >> 16u32) & 1 == 1)) by (bit_vector);
}

/// A capture format is accepted exactly when it is mono, 16-bit, at 16 kHz
/// or 48 kHz, and is then accepted as it is.
pub proof fn format_accepted_exactly_when_supported(f: CaptureFormat)
    ensures
        spec_validate(f) is Ok <==> (f.channels == 1 && f.sample_width_bits == 16 && (f.sample_rate_hz == 16_000
            || f.sample_rate_hz == 48_000)),
        spec_validate(f) is Ok ==> spec_validate(f) == Ok::<CaptureFormat, AudioConfigError>(f),
{
}

/// The clock register holds each divider less one in its own byte: MCLK in
/// bits 16 to 23, receive BCLK in bits 8 to 15, transmit BCLK in bits 0 to 7,
/// and nothing above.
pub proof fn clock_register_holds_each_divider(c: ClockDividers)
    requires
        c.spec_valid(),
    ensures
        (ckr_value(c) >> 16u32) & 0xffu32 == (c.mclk_div - 1) as u32,
        (ckr_value(c) >> 8u32) & 0xffu32 == (c.rx_bclk_div - 1) as u32,
        ckr_value(c) & 0xffu32 == (c.tx_bclk_div - 1) as u32,
        ckr_value(c) >> 24u32 == 0,
{
    let m = (c.mclk_div - 1) as u32;
    let r = (c.rx_bclk_div - 1) as u32;
    let t = (c.tx_bclk_div - 1) as u32;
    assert(m < 256 && r < 256 && t < 256);
    let v = (m << 16u32) | (r << 8u32) | t;
    assert(v == ckr_value(c));
    assert((v >> 16u32) & 0xffu32 == m) by (bit_vector)
        requires
            m < 256 && r < 256 && t < 256,
            v == (m << 16u32) | (r << 8u32) | t,
    ;
    assert((v >> 8u32) & 0xffu32 == r) by (bit_vector)
        requires
            m < 256 && r < 256 && t < 256,
            v == (m << 16u32) | (r << 8u32) | t,
    ;
    assert(v & 0xffu32 == t) by (bit_vector)
        requires
            m < 256 && r < 256 && t < 256,
            v == (m << 16u32) | (r << 8u32) | t,
    ;
    assert(v >> 24u32 == 0) by (bit_vector)
        requires
            m < 256 && r < 256 && t < 256,
            v == (m << 16u32) | (r << 8u32) | t,
    ;
}

} // verus!
