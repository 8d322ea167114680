use starry_cgroup::i2s_tdm::{
    AudioConfigError, CaptureFormat, ClockDividers, I2sTdmController, IrqEvent, PcmRing, RegisterWrite, RingError,
    CKR, CLR, INT_RX_OVERFLOW, INT_RX_READY, XFER, XFER_RX_START,
};

#[test]
fn format_validation_rejects_unimplemented_shapes() {
    assert_eq!(CaptureFormat::mono_48k().validate(), Ok(CaptureFormat::mono_48k()));
    assert_eq!(
        CaptureFormat { channels: 2, ..CaptureFormat::mono_48k() }.validate(),
        Err(AudioConfigError::UnsupportedChannels)
    );
    assert_eq!(
        CaptureFormat { sample_width_bits: 24, ..CaptureFormat::mono_48k() }.validate(),
        Err(AudioConfigError::UnsupportedSampleWidth)
    );
}

#[test]
fn ring_preserves_order_and_reports_overrun() {
    let mut ring = PcmRing::<2>::new();
    assert_eq!(ring.push(10), Ok(()));
    assert_eq!(ring.push(20), Ok(()));
    assert_eq!(ring.push(30), Err(RingError::Full));
    assert_eq!(ring.overruns(), 1);
    assert_eq!(ring.pop(), Ok(10));
    assert_eq!(ring.pop(), Ok(20));
    assert_eq!(ring.pop(), Err(RingError::Empty));
}

#[test]
fn unsupported_sample_rate_is_refused() {
    assert_eq!(CaptureFormat::mono_16k().validate(), Ok(CaptureFormat::mono_16k()));
    assert_eq!(
        CaptureFormat { sample_rate_hz: 44_100, ..CaptureFormat::mono_48k() }.validate(),
        Err(AudioConfigError::UnsupportedSampleRate)
    );
    assert!(I2sTdmController::new(CaptureFormat { channels: 2, ..CaptureFormat::mono_16k() }).is_err());
}

#[test]
fn error_messages_match_the_driver() {
    assert_eq!(AudioConfigError::UnsupportedChannels.message(), "only mono capture is supported in the first implementation");
    assert_eq!(AudioConfigError::InvalidClockDividers.message(), "I2S clock dividers must be non-zero");
}

#[test]
fn capture_programme_encodes_dividers() {
    let mut c = I2sTdmController::new(CaptureFormat::mono_48k()).unwrap();
    assert_eq!(c.format(), CaptureFormat::mono_48k());
    let w = c.configure_capture(ClockDividers { mclk_div: 4, rx_bclk_div: 2, tx_bclk_div: 3 }).unwrap();
    assert_eq!(w.len(), 7);
    assert_eq!(w[2], RegisterWrite { offset: CKR, value: (3 << 16) | (1 << 8) | 2 });
    assert_eq!(w[6], RegisterWrite { offset: CLR, value: 2 });
    assert_eq!(
        c.configure_capture(ClockDividers { mclk_div: 0, rx_bclk_div: 2, tx_bclk_div: 3 }),
        Err(AudioConfigError::InvalidClockDividers)
    );
    assert_eq!(c.start_capture(), RegisterWrite { offset: XFER, value: XFER_RX_START });
    assert_eq!(c.stop_capture(), RegisterWrite { offset: XFER, value: 0 });
}

#[test]
fn interrupts_are_acknowledged_and_classified() {
    let mut c = I2sTdmController::new(CaptureFormat::mono_16k()).unwrap();
    let (ack, ev) = c.handle_irq(INT_RX_READY | INT_RX_OVERFLOW);
    assert_eq!(ack, RegisterWrite { offset: CLR, value: INT_RX_READY | INT_RX_OVERFLOW });
    assert_eq!(ev, IrqEvent::RxOverflow);
    assert_eq!(c.handle_irq(INT_RX_READY).1, IrqEvent::RxReady);
    assert_eq!(c.handle_irq(0).1, IrqEvent::NoEvent);
}

#[test]
fn ring_pop_slice_drains_in_order() {
    let mut ring = PcmRing::<4>::new();
    assert_eq!(ring.capacity(), 4);
    for s in [1i16, 2, 3] {
        ring.push(s).unwrap();
    }
    assert_eq!(ring.available(), 3);
    let mut out = [0i16; 2];
    assert_eq!(ring.pop_slice(&mut out), 2);
    assert_eq!(out, [1, 2]);
    let mut rest = [9i16; 4];
    assert_eq!(ring.pop_slice(&mut rest), 1);
    assert_eq!(rest, [3, 9, 9, 9]);
    assert_eq!(ring.available(), 0);
}

#[test]
fn ring_wraps_around() {
    let mut ring = PcmRing::<2>::new();
    ring.push(1).unwrap();
    assert_eq!(ring.pop(), Ok(1));
    ring.push(2).unwrap();
    ring.push(3).unwrap();
    assert_eq!(ring.pop(), Ok(2));
    assert_eq!(ring.pop(), Ok(3));
    assert_eq!(ring.overruns(), 0);
}
