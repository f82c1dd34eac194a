# realtime_ai_translation

Real-time speech translation between Chinese and English: the library decides, the
application around it talks to recognisers, models, files and browsers.

`src/` is a Verus library. Every function states in its contract what it returns or
changes, and Verus proves it.

| Module | Subject |
| --- | --- |
| `segment`, `session` | cutting running speech into segments, and what a session shows and translates |
| `streaming` | committing the stable part of a hypothesis and revising the rest |
| `job` | the way of one segment through dictionary, state machine, model and refinement |
| `terms`, `replace`, `language`, `dictionary` | the personal dictionary, its hotwords, and learning from corrections |
| `translation`, `llm` | what workers and language models are asked, and what is made of their answers |
| `asr`, `identity` | recognisers: which there are, and how their bridges are launched |
| `document`, `xml`, `archive`, `workbook`, `parts` | the text of reference documents |
| `metrics`, `revision`, `summary`, `median`, `baseline` | measuring sessions and keeping a baseline |
| `config`, `server` | settings, answers to clients |
| `text`, `number`, `clock`, `json`, `domain` | what the others are built from |

Facts that span functions are public proof functions whose names begin with `law_`.
What the library takes from other crates stands behind small functions whose doc comments
name the outside function and say what is believed of it.

The library has no floating point: a confidence is the bit pattern of a double, and
averages and rates are ratios of whole numbers. Points in time are nanoseconds since some
fixed moment.

`tests/` runs the library; `app/` is the server.
