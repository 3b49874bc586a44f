# planty

Firmware library for a plant-watering controller on an ESP32: a soil-moisture
sensor, a valve servo whose state is logged in flash, a small OLED screen and
an MQTT link for commands and readings.

`src/` is the verified library (Verus):

- `mqtt` — the MQTT wire format (remaining-length field, CONNECT, SUBSCRIBE,
  PUBLISH and PINGREQ packets, CONNACK/SUBACK checks), the packet decoder and
  the receive buffer that assembles packets from TCP reads.
- `soil` — filtering of raw ADC samples, moisture percentage, and the
  debounced dry/wet state.
- `servo` — duty cycles and move sequences of the two servo kinds.
- `storage` — the valve log: one cleared bit per transition in a flash sector.
- `display` — the text lines of the boot and metrics screens.
- `control` — the main loop's decisions, the calibration message parser and
  the reading of MQTT commands.
- `link` — the steps of an MQTT connection attempt and of the reconnect loop.

`app/` is the firmware around it: peripherals, Wi-Fi, sockets, flash, drawing
and the async main loop.
