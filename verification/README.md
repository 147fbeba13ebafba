# robot_arm

Motion planning for a hobby arm of up to six servos on a PCA9685 board, verified with Verus.

The library computes plans: sequences of writes to the board, pauses and reports. It does no
input or output of its own. The firmware under `app/` takes command packets over Bluetooth, asks
the library for a plan and carries it out.

| module     | what it holds                                                              |
|------------|----------------------------------------------------------------------------|
| `number`   | the mathematics of single-precision numbers and their rounding             |
| `single`   | single-precision arithmetic in integers                                   |
| `curve`    | the eased course of a move, and the proof that it never overshoots         |
| `cosines`  | the cosines that a move is computed from                                   |
| `step`     | what plans consist of                                                      |
| `glide`    | eased moves of one to five joints                                          |
| `ramp`     | moves at constant speed                                                    |
| `pulse`    | from angles to servo pulses                                                |
| `arm`      | jogging, and moves of three joints in degrees                              |
| `script`   | routines: poses, rests and reports in order                                |
| `routines` | the demonstration routines                                                 |
| `packet`   | command packets                                                            |

Cosines are the one thing that the arithmetic here does not compute. A move takes them as an
argument of type `Cosines`, which holds values between -1 and 1 only. Of which angles they are
taken, from which step on, `glide::glide_phases` says for the eased moves and the routines, and
`arm::axis_phases` for the move in degrees. What is proved of a move holds for all such values,
or, where a proof says so, for values that fall from step to step.
