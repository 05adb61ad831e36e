# poker_equity

Cards, hands and the hand notation of a poker equity engine, verified with
Verus.

## Layout

- `src/cards` -- cards, ranks and suits; `CardSet`, a set of cards held as the
  bits of one word; the deck; the five-card hand and what it is worth.
- `src/notation` -- the text notation for hands (`AhKh`, `AKs`, `22+`,
  `JTs-76s`, `2 c`, `A*`), boards and dead cards, and its errors.
- `src/hand` -- a hand together with the game it is played in.
- `src/poker` -- the games (`TexasHoldem`, `Omaha`, `Draw`) and a player at a
  five-card table.
- `src/player` -- what every kind of player offers.
- `src/game` -- a table of players dealt from one deck, with the exchange of
  cards in a draw game.
- `src/odds` -- what an equity question settles before any card is dealt:
  who plays with what, which cards are dead, the checks every game makes of
  them, which cards are certain, and which card an open-suit rank stands for
  where suits do not matter. `settle_request` (masks) and `settle_text`
  (text) run every check in a fixed order and fill the hands and board out
  to the game's shape; their contracts (`settled_outcome`, `text_outcome`)
  say which refusal comes for which request, and what a settled request
  holds. The last check asks whether every slot can be given an available
  card of its own at once (`odds::matching`). The deck each simulation
  starts from and the split of the simulations into chunks are here too;
  the sampling and the equities themselves are not part of the library.
- `src/error` -- the errors and their messages.
- `src/text` -- characters, whitespace and UTF-8 byte positions.

## What is proved

Every function states what it returns in its contract, and Verus proves it.
Beyond that, some properties span several functions or every input:

- The canonical rendering of any hand field the parser accepts reads back as
  exactly what it was read from (`notation::lemma_canonical_round_trip`).
- A card named outright reads as its rank narrowed to its suit
  (`notation::lemma_naming_a_card`).
- Exchanging the last of five cards keeps the first four and draws a
  different fifth (`game::lemma_exchange_last_card`); every table keeps each
  hand free of repeats, of cards still in the deck and of cards another seat
  holds (`GameState::wf`, kept by every operation).
- Pinning open suits keeps every rank and hands out no card twice
  (`odds::lemma_pinning_keeps_ranks`).
- Settling a request runs its checks in one fixed order, and says which
  refusal comes for which request (`odds::settled_outcome`); a request
  written as text is read field by field first (`odds::text_outcome`).
- Pinning, read across the hands and then the board, turns each open-suit
  rank into one available card of that rank and leaves every other slot
  alone (`odds::lemma_pinned_slots`).
- Dealing a deck until it is empty hands out every card exactly once
  (`cards::lemma_dealing_out_the_deck`).
- A pair stands for six hands, a suited term four, an offsuit term twelve
  and an open one sixteen (`notation::lemma_combo_counts`); a hand field
  gives alternatives of the game's size, or up to it where it may be short
  (`notation::lemma_field_widths`), and a short field reads as a whole one
  wherever both succeed (`notation::lemma_short_reads_as_whole`).
- A request whose slots cannot all be given cards of their own is refused,
  and only such a request: when the search finds no chain to a free card,
  the slots it reached admit fewer cards than there are of them
  (`odds::matching::can_fill_slots`).
- Iterating a card set lists each of its cards once, lowest first, and
  `nth` gives the same card as the iteration at the same place
  (`cards::lemma_iter_in_order`, `cards::lemma_nth_agrees_with_iter`).
- The chunks of work add up to the simulations asked for
  (`odds::lemma_chunks_cover`).
- Reading cards ignores whitespace; a rank and a suit meet in one card; the
  suits partition the deck; either end of a range may be written first; two
  hands compared either way round give opposite answers.

The random draw from the deck and appending a character to a string go
through small trusted wrappers whose contracts say only what the
documentation of the called function promises.
