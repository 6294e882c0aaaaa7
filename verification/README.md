# flvsubinject

Injects timed text into a muxed FLV stream as `onCaption` / `onTextData` script
data. Cues come in on a text pad, FLV bytes on another; each cue goes out as a
tag of its own, spliced between two tags of the muxer.

The library under `src/` is written in Verus and proved:

* `flv` frames and reads tags, `amf` builds the bodies of caption messages;
* `timeline` is the mathematical model of a stream and of what the injector
  does to it;
* `subinject` is the injector, whose every operation is proved to follow that
  model;
* `settings` holds what a user can set;
* `laws` states what holds of every buffer: the muxer's bytes pass through
  unchanged, the output is never torn, no cue is lost or invented;
* `drains` states which cues leave with which tag: each once, with the first tag
  that reaches it;
* `streams` states what holds of a whole stream, the first and any that starts
  with a flush: an uncaptioned one with `prime` off is byte for byte the
  muxer's, the output is in order of time, the subtitle stream is declared once,
  and every cue is written by the end.

`app/` wraps the injector in a GStreamer element, with its pads, properties and
threads.

## Behaviour

* A cue leaves right before the first tag that reaches its time. Late ones move
  to the stream position, or are discarded where `late-policy` is `drop`.
* An empty cue is written like any other: it clears the display.
* With `prime` set, one invisible cue (U+200B) at the first tag declares the
  subtitle stream.
* A file header is recognised by its signature; a stream may start with a tag
  instead.
* At the end of the stream the cues still queued are written. A flush discards
  them and forgets the timeline; the subtitle stream is not declared again.
