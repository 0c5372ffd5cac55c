# schedule

A job scheduler driven by natural-language schedules such as "every monday at
2:30pm", "every other tuesday at 4pm", "the last friday of every month at 5pm",
"every 15th at 9am" or "tomorrow at 9pm". The words "of every month" may follow the
day of a "the <ordinal>" schedule.

The library under `src/` is verified with Verus:

- `calendar` — dates and local wall-clock times, the Gregorian day count, weekdays and
  ISO week numbers (the calendar facts themselves come from `chrono`);
- `text` — white space, ASCII case, words, decimal numbers;
- `parser` — the grammar of schedule expressions, error messages, and the laws that a
  description reads back as the schedule it describes;
- `schedule` — when a schedule fires next (the earliest matching moment strictly after
  a given one), how it reads in words, the laws of weekly, daily and monthly
  repetition and that asking later never gives an earlier fire, and what the waiting
  loop does with a wall-clock time the local time zone does not hold once;
- `runner` — how a waiting time reads;
- `jobs` — where jobs come from and which warnings they deserve.

`app/` is the command-line program around it: argument handling, the TOML
configuration, watching the configuration file, threads, sleeping and running
commands.
