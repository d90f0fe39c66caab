# lezeh

A command line tool for day-to-day engineering operations:

* cherry picking a database row together with the rows it refers to and the
  rows that refer to it, printed as insert statements or as a graphviz graph;
* merging the feature branches of phabricator tasks into master through
  github pull requests, and deploying a repository by merging one branch
  into another;
* shortening urls with bitly;
* tidying up credit card bills.

## Layout

* `src/` is the library, written in Verus and verified. The calls into
  other crates (uuid, petgraph, handlebars, url, phab_lib) and a few std
  functions stand behind small trusted wrappers; each says in its doc
  comment what its contract claims, and what it leaves unsaid (the text that
  handlebars renders, for one, is not stated).
* `app/` is the command line around it: argument parsing, the settings file,
  git, postgres, github, phabricator and bitly. It runs the commands, queries
  and requests that the library's step functions ask for (the merge of a
  branch, the walk through a row's relations) and hands back the answers.
* `tests/` exercises the library on concrete values.

## Settings

`~/.lezeh` is a YAML file with the sections `phab`, `ghub`, `bitly`
(optional), `deployment` (the repositories and their deployment schemes, and
optionally `merge_feature_branches.output_template_path`) and `db_by_name`
(optional; the databases that `lezeh db cherry-pick --source-db` can name).
