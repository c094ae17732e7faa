# whitenoise

Signal processing and command handling of an RP2040 white-noise machine,
verified with Verus.

- `src/dsp.rs`: the integer sample path (xorshift white noise, pink and
  brown generators with color interpolation, first-order high- and low-pass
  filters, smoothed gain, saturating PCM conversion, I2S frames).
- `src/controls.rs`: debounced buttons, short presses, holds with repeat,
  and the two-button chord that toggles power.
- `src/protocol.rs`: the shape of a control-port command line, error
  messages, line assembly and fixed-capacity response buffers.
- `app/`: the firmware (Embassy tasks, USB and I2S I/O) and the
  floating-point controls: parameters, coefficients, number reading,
  status formatting.
