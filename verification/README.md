# statusline

A status line that shows the use of two rate limits and forecasts when the five-hour
one runs out, from the live burn rate and from the rates of past windows.

`src/` is the library, verified with Verus: reading the payload and the state files,
keeping the sample log, harvesting rates, choosing the evidence for a forecast, and
putting the line together. `app/` is the program around it: files, the environment,
and floating-point arithmetic. Percentages and rates cross the border as their bits.
The program takes one argument, the name of the settings file in the home directory.

| Module | Content |
|---|---|
| `text`, `decimal`, `table` | words, lines, integers, files of records |
| `binary64` | order, rounding and truncation of floating-point numbers, on their bits |
| `account` | the signed-in account in the settings file |
| `payload` | the JSON payload, read with `serde_json` |
| `samples`, `rates` | the two state files and the sample log |
| `harvest`, `median` | burn rates of closed windows, and their median |
| `forecast` | the evidence for a forecast, and the time at which a limit runs out |
| `clock`, `times` | times of day in local time, printed with `chrono` |
| `dirs` | where the state is kept |
| `line` | the status line |
