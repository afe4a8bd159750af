# gitshrub

A git history viewer in the manner of gitk. The library under `src/` holds
everything the viewer decides, each function with a contract that Verus proves:

- `text`: Unicode trimming, splitting, prefix and suffix tests over `char`s.
- `git`: the command lines handed to `git` and the reading of what it prints
  (log records, decorations, diffs, the reflog, rebase lists and results,
  in-progress operations, cherry-picking several commits one by one).
- `graph`: the lane layout of the commit graph, with its laws.
- `projects`: the list of recently opened repositories.
- `ui`, `app`: labels, line kinds, window titles, dialog entries, the command line.

`app/` is the program around it: it runs `git`, reads and writes files, and
draws the window with egui/eframe.

## Left out

The window has no Fetch, Push, Add remote, Cleanup or Create tag actions, and
a reworded commit's subject cannot be edited in the rebase dialog. These
actions need git operations (listing remotes and their branches, the
upstream of a branch, pushing and force-pushing, recognising a rejected push,
adding a remote and deriving its name from a URL, fetching, garbage
collection, creating a tag) and a field for the new subject that this
project's git layer never defined, so there is nothing for them to run. The
decisions those dialogs make on their own inputs are in the library all the
same: `app::default_remote_index`, `app::push_sets_upstream` and
`app::add_remote_enabled`.

Deleting a branch uses `git branch -D` (force), as the function's own
documentation says.
