# paru (verified core)

The decision logic of the `paru` AUR helper as a Verus library, with each
public function's behaviour stated in its contract and proved.

- `src/` — the verified library: the number-menu language (`menu`), strict
  typo correction of repository targets (`typo`), target splitting and the
  `depend` arguments (`targets`), Arch Linux Archive dates and file names
  (`ala`), the `downgrade` arguments, listing and version choice
  (`downgrade`), PKGBUILD scan decisions (`scan`), prompt answers and the
  `history` log (`prompt`), orphaned dependencies (`deps`), and string
  helpers (`text`). Laws of the library are the `law_*` proof functions.
- `tests/` — tests of the library.
- `app/` — the terminal and file side: prompts, printing, reading pattern
  databases and PKGBUILDs, floating-point scan scores, stream redirection.
