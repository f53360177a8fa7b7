# Detrudr

`detrudr` watches the HTTP traffic of a host. It follows a JSON access log, learns how much traffic
is usual, bans addresses whose traffic is not, sends Slack alerts, keeps an audit trail and serves a
dashboard.

The decisions are a library that is verified with [Verus](https://github.com/verus-lang/verus):
what each function returns and changes is stated in its contract and proved. The daemon around it
is ordinary Rust.

## Behaviour

- Global and per-address sliding windows of requests, 60 seconds by the usual settings.
- Per-second samples, kept by the hour; baselines are recalculated from the current hour where it
  has samples enough, and else from the latest samples of all hours.
- A rate is anomalous where its z-score or its multiple of the baseline mean exceeds a threshold.
  For an address whose share of 4xx and 5xx answers exceeds a multiple of the learned share, both
  thresholds are divided by the tightening factor.
- Bans follow a schedule, such as 10 minutes, 30 minutes, 2 hours, and are permanent after it.
  Strikes decay after `blocking.strike_decay_hours`, if that is positive.
- Five failed logins within a minute lock an address out for 30 seconds. A session lasts an hour.

## Layout

```text
src/       the verified library
  engine   the detection engine
  state    the engine as a mathematical value, and its transitions
  pass     a whole pass over a log entry or a tick, step by step
  laws     what holds of the transitions together
  runs     what the windows hold after a run of steps
  rolling  what a baseline holds after a run of samples
  baseline, window, bans                  samples, windows, bans and strikes
  monitor                                 log entries, following a file
  config, startup                         settings, environment, command line
  dashboard, forms, limiter, session      requests, percent encoding, logins, sessions
  events, notifier, blocker, report       events, Slack messages, firewall rules, audit trail
  clock, double, table, text              time, order of doubles, maps by text, text
tests/     tests of the library
app/       the daemon: files, network, processes and floating-point arithmetic
```

Doubles pass through the library as bit patterns: it compares them, and the daemon computes them.
A number that is shown comes with its rounding to four decimal places.
Calendar text and time differences come from chrono; what the library relies on is stated in
`clock`.

## Running

```bash
detrudr --config config.yaml
```

A `.env` file beside the settings file is read first. `LOG_PATH`, `AUDIT_LOG_PATH`, `WEB_HOOK_URL`,
`CHANNEL`, `ENABLE_SLACK_NOTIFICATION` and `DRY_RUN` override settings; `EMAIL` and `PASSWORD` are
the credentials of the dashboard. Its pages are read from `pages/` and its logo from `public/`.
