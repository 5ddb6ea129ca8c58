# airsend

Sends the system audio of a desktop computer to a HomePod over AirPlay 2.

- `src/` is the verified library (Verus): mDNS device records and the
  per-device cache, pairing descriptors and the derived MAC identifier,
  the PCM conversions of the capture backends (16-bit decoding, chunking,
  channel layout, linear resampling computed exactly as double-precision
  arithmetic rounds it), the helpers of the PulseAudio
  backend, the live-stream settings, the test-tone schedule, the pump's
  decisions and the log directory.
- `tests/` exercises the library on concrete values.
- `app/` is the desktop program around it: mDNS browsing, pairing and
  streaming through the AirPlay client crates, capture through
  `parec` / cpal / WASAPI, and the Tauri UI.
