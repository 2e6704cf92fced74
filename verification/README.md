# vocrab

A terminal vocabulary trainer. It keeps, for every word of a unit, how often
it was answered right and wrong, asks the words with the lowest success rate
first, and lists the ten least known words at the end of a unit.

- `src/` is the verified library:
  - `word.rs`: a word, its counters and its success rate (an exact fraction);
  - `exercise.rs`: the order of a unit, the commands typed after an answer,
    the state of a pass through a unit, the least known words;
  - `files.rs`: reading a unit's csv file, names of temporary files;
  - `startpage.rs`: the unit files of the vocabulary directory and the choice
    typed on the start page;
  - `ui.rs`: the layout of what the terminal shows;
  - `text.rs`: string helpers.
- `app/` is the program around it: arguments, files, the terminal.
- `tests/` runs the library on concrete values.

Commands while a unit is asked:

```
:q    end the unit and save
:q!   end the unit without saving (also :fq)
:qa   save and leave
:qa!  leave without saving
```

On the start page, a number chooses a unit; a trailing `r` asks its pairs the
other way round; `:qa` leaves.
