# easy2type

English word completion for the Windows desktop: a global keyboard hook
follows the word being typed, a weighted trie and fuzzy matching propose
candidates near the caret, and a phrase table predicts the next word.

The library in `src/` holds the logic, with its behaviour stated in
`requires` / `ensures` contracts and proved by Verus:

| module | what it does |
|---|---|
| `text`, `split`, `number`, `order`, `rank` | characters, trimming, splitting, number parsing and printing, word order, ranked listings |
| `trie`, `distance`, `dictionary` | the weighted prefix trie, the edit distance of fuzzy matching, dictionary files |
| `next_word` | the phrase table and next-word suggestions |
| `predictor`, `candidates` | prefix and fuzzy predictions, the candidates the overlay shows |
| `hook`, `buffer`, `state`, `control` | key classes, the keyboard hook's decisions, the word buffer, the application state, the main loop's decisions |
| `config`, `overlay`, `caret`, `tray`, `simulate`, `settings`, `logger` | configuration, skins and colours, caret and window placement, tray decisions, simulated typing, settings rules, log time stamps |

Laws that span several functions are public proof functions named `law_*`.

`app/` is the Windows program around the library: the hook thread, the
overlay window, the tray icon, simulated input, and the configuration and
dictionary files. `tests/` runs the library on concrete values.
