# kctrl

The host side of a serial protocol with an Arduino controller.

- `src/protocol.rs`: the messages (`Value`), their bytes on the wire
  (`Value::repr`), and the byte-at-a-time parser (`ProtoParser`), each with a
  contract over the model in the same file (`encode`, `is_frame`, `step`).
- `src/stream.rs`: what the parser gives back of whole byte streams (`feed`),
  and the laws: a written message is read back (flag messages, and LCD
  writes with ASCII lines: the parser reads a line one character per byte),
  messages written in a row are read back in order, bytes that are no
  identifier are skipped, and two 255 terminators end whatever frame is
  under way.
- `src/serial.rs`: how bytes read from the port become text and which bytes a
  text is sent as.
- `app/main.rs`: the program: serial port I/O and the handshake loop.
