# tuner

A 90s cable box for a folder of videos. The library is dealt out over channels that loop for ever;
what a channel plays is a function of the clock alone, so the set comes back on air where it would
have been.

- `src/` holds the rules of the set as a verified library: dealing and scheduling, the remote
  control, pacing of frames and sound, everything drawn over the picture, settings, and the
  decisions of the decode side. Times are microseconds, fractions are millionths or thousandths.
- `tests/` runs the library on plain values.
- `app/` is the rest: windows, codecs, the graphics card, the sound device, files and the network.
  It hands the library plain values and does what the library decides. The font, the headlines, the
  icon and the set up page are read from a folder `assets` next to the program.

What is true of the whole is stated as proof functions next to the code it speaks of: that a channel
repeats after its loop, that every free program plays on one channel, that recall never lands in the
guide, that nothing is drawn outside the window, and so on.
