# Capitol Dungeon

A top-down pixel dungeon crawler. The rules of the game live in a library
whose behaviour is stated in `requires` / `ensures` contracts and proved with
Verus; the window, input, sound output, storage and everything that moves in
floating point live in a thin application around it.

## Layout

- `src/` — the verified library
  - `dungeon` — tiles, rooms, level generation (every walkable tile reachable
    from the campfire, boss every fifth floor, co-op on odd floors, loot and
    mobs as the draws give them, no mob spawns in safe rooms), custom
    text-art levels and their round trip
  - `world` — the player, backpack and gear, the run's state, toasts, stats
    and achievements, interactions (chests, graffiti, campfires, NPCs, stairs)
  - `progress` — level-ups, melee and spell damage, kill rewards and loot
  - `trade` — buying, selling, dropping and picking up items
  - `content` — the data the game is driven by (mobs, items, spells, NPCs…)
  - `save` — what a save holds and how a world is rebuilt from it
  - `spawn` — which mob, NPC and fighter types a level's spots receive
  - `editor`, `look`, `touch`, `settings` — the level editor, the character
    editor, touch controls and player settings as state machines
  - `sprites`, `text`, `audio` — sprite decoding, text wrapping, WAV framing
  - `rng` — the one call into the random number generator
- `tests/` — tests on concrete values
- `app/` — the game loop, drawing, input, sound synthesis, JSON and storage
