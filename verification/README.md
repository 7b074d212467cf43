# macfand

A fan control daemon for Intel MacBooks that steers on every sensor on the board, not just the
CPU. Each configured sensor has a PI controller, and the fans run at whichever of them asks for
the most air: a hot chassis or PCH raises the fans even when the CPU package is comfortable.

The decisions are a library whose behaviour is stated in contracts and proved with Verus. The
program around it does the reading, writing and waiting.

## Layout

| Path | What it holds |
|---|---|
| `src/config.rs` | The settings, their defaults, and which of them are valid |
| `src/control.rs` | The controller of a sensor, and the governor that folds them into one command |
| `src/policy.rs`, `src/windup.rs`, `src/slew.rs` | What the controllers and the governor promise, at one poll and over many |
| `src/sysfs.rs`, `src/fan.rs` | Sensors and fans, from what the kernel's files say |
| `src/guard.rs` | Rounds of writes: taking the fans over, driving them, giving them back |
| `src/session.rs` | The order in which the lock and the fans are taken and given back |
| `src/startup.rs` | What is settled before a fan is touched |
| `src/daemon.rs` | One poll of the control loop, and the sleep until the next |
| `src/cli.rs`, `src/sd.rs`, `src/report.rs` | The command line, notifications, reports |
| `src/binary64.rs` | Floating-point arithmetic, done on whole numbers |
| `src/datum.rs`, `src/rounding.rs`, `src/order.rs` | What that arithmetic gives, and how it keeps order |
| `src/text.rs`, `src/sorting.rs` | Strings and sorted lists |
| `tests/` | Tests of the library, with the floating point of the processor next to its own |
| `app/` | The program |

## What is proved

Among other things:

- the fans run at the highest of the demands, and the command never leaves the speed range;
- a sensor that is critical, or has failed, gets the maximum on the poll that detects it;
- the demand of a sensor never falls as it heats, short of settings that overflow the format;
- a sensor that goes bad is ridden out for the grace period and then demands the maximum;
- held above its target a sensor pushes on until its integral is at its ceiling, and held below
  it the integral is gone in a bounded time, however long the sensor sat above;
- ramp and controller are never summed, and the integral adds no more than its ceiling;
- from one command to the next the speed falls, and without an emergency rises, by no more than
  the ramps allow and one rpm;
- the configuration can narrow the range of the fans and cannot widen it;
- a daemon that starts steers on every sensor that is not optional;
- no fan is touched without the lock, and however a session ends, each fan is given back, even
  after another fails, before the lock is let go of.

## Use

```sh
macfand show      # every sensor and fan this machine exposes, with readings
macfand daemon    # drive the fans
macfand restore   # hand the fans back to the SMC
```

`/etc/macfand.toml`, or the file named with `--config`, holds the configuration. Every key is
optional and an empty file is valid.
