//! Merging feature branches: finding the remote branches and master commits
//! of phabricator tasks, the decisions taken while a branch is merged through
//! a github pull request, and the summary of what was merged.

use vstd::prelude::*;

use crate::config::{last_index_of, lemma_last_index_of, RepositoryConfig};
use crate::text::{
    append_str, contains_seq, contains_str, lines_of, split_on, split_str, starts_with_seq, str_eq,
    text_lines, trim_seq, trim_str, views,
};

verus! {

// ---------------------------------------------------------------------
// Tasks and users
// ---------------------------------------------------------------------

/// What merging reads of a phabricator task.
#[derive(Debug)]
pub struct Task {
    pub id: String,
    pub name: String,
    /// The phid of the user the task is assigned to.
    pub assigned_phid: Option<String>,
}

/// The view of a task: id, name, assignee phid.
pub type TaskModel = (Seq<char>, Seq<char>, Option<Seq<char>>);

/// The view of an optional text.
pub open spec fn opt_view(o: Option<String>) -> Option<Seq<char>> {
    match o {
        Some(s) => Some(s@),
        None => None,
    }
}

impl View for Task {
    type V = TaskModel;

    open spec fn view(&self) -> TaskModel {
        (self.id@, self.name@, opt_view(self.assigned_phid))
    }
}

impl Clone for Task {
    fn clone(&self) -> (r: Self)
        ensures
            r@ == self@,
    {
        let assigned_phid = match &self.assigned_phid {
            Some(p) => Some(p.clone()),
            None => None,
        };
        Task { id: self.id.clone(), name: self.name.clone(), assigned_phid }
    }
}

/// What merging reads of a phabricator user.
#[derive(Debug)]
pub struct User {
    pub phid: String,
}

impl View for User {
    type V = Seq<char>;

    open spec fn view(&self) -> Seq<char> {
        self.phid@
    }
}

impl Clone for User {
    fn clone(&self) -> (r: Self)
        ensures
            r@ == self@,
    {
        User { phid: self.phid.clone() }
    }
}

/// A task and the user it is assigned to.
#[derive(Debug)]
pub struct UserTaskMapping(pub User, pub Task);

/// The views of a sequence of tasks.
pub open spec fn task_views(tasks: Seq<Task>) -> Seq<TaskModel> {
    tasks.map_values(|t: Task| t@)
}

/// The views of a sequence of borrowed texts.
pub open spec fn str_views(v: Seq<&str>) -> Seq<Seq<char>> {
    v.map_values(|s: &str| s@)
}

// ---------------------------------------------------------------------
// Task ids
// ---------------------------------------------------------------------

/// A task id without its leading `T`s: phabricator writes task 1234 as
/// `T1234`.
pub open spec fn clean_task_id(id: Seq<char>) -> Seq<char>
    decreases id.len(),
{
    if id.len() > 0 && id[0] == 'T' {
        clean_task_id(id.drop_first())
    } else {
        id
    }
}

/// `phab_lib`'s `PhabricatorClient::clean_id`, which drops the leading `T`s
/// of a task id (`str::trim_start_matches('T')`).
#[verifier::external_body]
fn clean_id(id: &str) -> (r: &str)
    ensures
        r@ == clean_task_id(id@),
{
    phab_lib::client::phabricator::PhabricatorClient::clean_id(id)
}

// ---------------------------------------------------------------------
// Matching tasks with remote branches
// ---------------------------------------------------------------------

/// A task id and a remote branch whose name holds it.
#[derive(Debug, Clone)]
pub struct MatchedTaskBranchMapping(pub String, pub String);

impl View for MatchedTaskBranchMapping {
    type V = (Seq<char>, Seq<char>);

    open spec fn view(&self) -> (Seq<char>, Seq<char>) {
        (self.0@, self.1@)
    }
}

/// The views of mappings.
pub open spec fn mapping_views(v: Seq<MatchedTaskBranchMapping>) -> Seq<(Seq<char>, Seq<char>)> {
    v.map_values(|m: MatchedTaskBranchMapping| m@)
}

/// The ids, in order, that `branch` holds, each paired with the branch.
pub open spec fn branch_matches(ids: Seq<Seq<char>>, branch: Seq<char>) -> Seq<
    (Seq<char>, Seq<char>),
>
    decreases ids.len(),
{
    if ids.len() == 0 {
        Seq::empty()
    } else {
        let prev = branch_matches(ids.drop_last(), branch);
        if contains_seq(branch, ids.last()) {
            prev.push((ids.last(), branch))
        } else {
            prev
        }
    }
}

/// For every branch in order (without surrounding white space), the ids it
/// holds in order.
pub open spec fn matching_pairs(ids: Seq<Seq<char>>, branches: Seq<Seq<char>>) -> Seq<
    (Seq<char>, Seq<char>),
>
    decreases branches.len(),
{
    if branches.len() == 0 {
        Seq::empty()
    } else {
        matching_pairs(ids, branches.drop_last()) + branch_matches(ids, trim_seq(branches.last()))
    }
}

/// The pairs for one branch are the ids it holds, each with the branch.
proof fn lemma_branch_matches(ids: Seq<Seq<char>>, branch: Seq<char>)
    ensures
        forall|k: int|
            0 <= k < branch_matches(ids, branch).len() ==> {
                &&& (#[trigger] branch_matches(ids, branch)[k]).1 == branch
                &&& contains_seq(branch, branch_matches(ids, branch)[k].0)
                &&& ids.contains(branch_matches(ids, branch)[k].0)
            },
        forall|i: int|
            0 <= i < ids.len() && contains_seq(branch, #[trigger] ids[i]) ==> branch_matches(
                ids,
                branch,
            ).contains((ids[i], branch)),
    decreases ids.len(),
{
    if ids.len() > 0 {
        let init = ids.drop_last();
        let prev = branch_matches(init, branch);
        let cur = branch_matches(ids, branch);
        lemma_branch_matches(init, branch);
        assert forall|k: int| 0 <= k < cur.len() implies {
            &&& (#[trigger] cur[k]).1 == branch
            &&& contains_seq(branch, cur[k].0)
            &&& ids.contains(cur[k].0)
        } by {
            if k < prev.len() {
                assert(cur[k] == prev[k]);
                let i = choose|i: int| 0 <= i < init.len() && init[i] == prev[k].0;
                assert(ids[i] == init[i]);
            } else {
                assert(ids[ids.len() - 1] == cur[k].0);
            }
        }
        assert forall|i: int| 0 <= i < ids.len() && contains_seq(branch, #[trigger] ids[i]) implies cur.contains(
            (ids[i], branch),
        ) by {
            if i < init.len() {
                assert(init[i] == ids[i]);
                let k = choose|k: int| 0 <= k < prev.len() && prev[k] == (init[i], branch);
                assert(cur[k] == prev[k]);
            } else {
                assert(cur[cur.len() - 1] == (ids[i], branch));
            }
        }
    }
}

/// What matching tasks with remote branches gives: every pair is an id of
/// the tasks and a branch (without surrounding white space) that holds it,
/// and every id held by a branch is paired with it.
pub proof fn lemma_matching_pairs(ids: Seq<Seq<char>>, branches: Seq<Seq<char>>)
    ensures
        forall|k: int|
            0 <= k < matching_pairs(ids, branches).len() ==> {
                &&& ids.contains((#[trigger] matching_pairs(ids, branches)[k]).0)
                &&& branches.map_values(|b: Seq<char>| trim_seq(b)).contains(
                    matching_pairs(ids, branches)[k].1,
                )
                &&& contains_seq(matching_pairs(ids, branches)[k].1, matching_pairs(ids, branches)[k].0)
            },
        forall|i: int, j: int|
            0 <= i < ids.len() && 0 <= j < branches.len() && contains_seq(
                trim_seq(#[trigger] branches[j]),
                #[trigger] ids[i],
            ) ==> matching_pairs(ids, branches).contains((ids[i], trim_seq(branches[j]))),
    decreases branches.len(),
{
    if branches.len() > 0 {
        let init = branches.drop_last();
        let last = trim_seq(branches.last());
        let prev = matching_pairs(ids, init);
        let tail = branch_matches(ids, last);
        let cur = matching_pairs(ids, branches);
        let trimmed = branches.map_values(|b: Seq<char>| trim_seq(b));
        let trimmed_init = init.map_values(|b: Seq<char>| trim_seq(b));
        lemma_matching_pairs(ids, init);
        lemma_branch_matches(ids, last);
        assert(cur == prev + tail);
        assert forall|k: int| 0 <= k < cur.len() implies {
            &&& ids.contains((#[trigger] cur[k]).0)
            &&& trimmed.contains(cur[k].1)
            &&& contains_seq(cur[k].1, cur[k].0)
        } by {
            if k < prev.len() {
                assert(cur[k] == prev[k]);
                let q = choose|q: int| 0 <= q < trimmed_init.len() && trimmed_init[q] == prev[k].1;
                assert(trimmed[q] == trimmed_init[q]);
            } else {
                assert(cur[k] == tail[k - prev.len()]);
                assert(trimmed[branches.len() - 1] == last);
            }
        }
        assert forall|i: int, j: int|
            0 <= i < ids.len() && 0 <= j < branches.len() && contains_seq(
                trim_seq(#[trigger] branches[j]),
                #[trigger] ids[i],
            ) implies cur.contains((ids[i], trim_seq(branches[j]))) by {
            if j < init.len() {
                assert(init[j] == branches[j]);
                let k = choose|k: int| 0 <= k < prev.len() && prev[k] == (ids[i], trim_seq(init[j]));
                assert(cur[k] == prev[k]);
            } else {
                let k = choose|k: int| 0 <= k < tail.len() && tail[k] == (ids[i], last);
                assert(cur[prev.len() + k] == tail[k]);
            }
        }
    }
}

/// Whether an output of a repository's merge mentions the (cleaned) task id:
/// a branch was matched with it, or master holds commits of it.
pub open spec fn mentions(output: MergeAllTasksOutput, id: Seq<char>) -> bool {
    ||| exists|k: int|
        0 <= k < output.matched_task_branch_mappings@.len() && clean_task_id(
            #[trigger] output.matched_task_branch_mappings@[k].0@,
        ) == id
    ||| exists|k: int|
        0 <= k < output.tasks_in_master_branch_by_task_id@.len() && clean_task_id(
            #[trigger] output.tasks_in_master_branch_by_task_id@[k].0@,
        ) == id
}

/// Whether some output mentions the task id.
pub open spec fn is_found(outputs: Seq<MergeAllTasksOutput>, id: Seq<char>) -> bool {
    exists|r: int| 0 <= r < outputs.len() && #[trigger] mentions(outputs[r], id)
}

/// Every id that an output mentions is the id of one of the tasks.
pub open spec fn mentions_known_tasks(outputs: Seq<MergeAllTasksOutput>, tasks: Seq<Task>) -> bool {
    &&& forall|r: int, k: int|
        0 <= r < outputs.len() && 0 <= k < outputs[r].matched_task_branch_mappings@.len()
            ==> exists|t: int|
            0 <= t < tasks.len() && #[trigger] tasks[t].id@ == clean_task_id(
                #[trigger] outputs[r].matched_task_branch_mappings@[k].0@,
            )
    &&& forall|r: int, k: int|
        0 <= r < outputs.len() && 0 <= k < outputs[r].tasks_in_master_branch_by_task_id@.len()
            ==> exists|t: int|
            0 <= t < tasks.len() && #[trigger] tasks[t].id@ == clean_task_id(
                #[trigger] outputs[r].tasks_in_master_branch_by_task_id@[k].0@,
            )
}

/// No two tasks share an id.
pub open spec fn task_ids_distinct(tasks: Seq<Task>) -> bool {
    forall|i: int, j: int|
        0 <= i < j < tasks.len() ==> #[trigger] tasks[i].id@ != #[trigger] tasks[j].id@
}

/// Every task that no output mentions is assigned to one of the users.
pub open spec fn unfound_tasks_assigned(
    outputs: Seq<MergeAllTasksOutput>,
    tasks: Seq<Task>,
    users: Seq<User>,
) -> bool {
    forall|t: int|
        0 <= t < tasks.len() && !is_found(outputs, #[trigger] tasks[t].id@) ==> (
        tasks[t].assigned_phid matches Some(p) && exists|u: int|
            0 <= u < users.len() && #[trigger] users[u].phid@ == p@)
}

/// The tasks, in order, that no output mentions.
pub open spec fn unfound_tasks(outputs: Seq<MergeAllTasksOutput>, tasks: Seq<TaskModel>) -> Seq<
    TaskModel,
>
    decreases tasks.len(),
{
    if tasks.len() == 0 {
        Seq::empty()
    } else {
        let prev = unfound_tasks(outputs, tasks.drop_last());
        if is_found(outputs, tasks.last().0) {
            prev
        } else {
            prev.push(tasks.last())
        }
    }
}

/// The views of user and task mappings: the user's phid and the task.
pub open spec fn user_task_views(v: Seq<UserTaskMapping>) -> Seq<(Seq<char>, TaskModel)> {
    v.map_values(|m: UserTaskMapping| (m.0@, m.1@))
}

/// Pairs each task with the phid of its assignee.
pub open spec fn with_assignees(tasks: Seq<TaskModel>) -> Seq<(Seq<char>, TaskModel)> {
    tasks.map_values(|t: TaskModel| (t.2->0, t))
}

/// Merging tasks and branches.
pub struct TaskUtil;

impl TaskUtil {
    /// Every pair of a task id and a remote branch (without surrounding
    /// white space) that holds it: branches in order, and for each branch the
    /// ids in order.
    pub fn create_matching_task_and_branch(
        task_ids: &Vec<&str>,
        remote_branches: &Vec<&str>,
    ) -> (mappings: Vec<MatchedTaskBranchMapping>)
        ensures
            mapping_views(mappings@) == matching_pairs(
                str_views(task_ids@),
                str_views(remote_branches@),
            ),
    {
        let ghost ids = str_views(task_ids@);
        let ghost branches = str_views(remote_branches@);
        let mut mappings: Vec<MatchedTaskBranchMapping> = Vec::new();
        let mut i: usize = 0;
        while i < remote_branches.len()
            invariant
                i <= remote_branches@.len(),
                ids == str_views(task_ids@),
                branches == str_views(remote_branches@),
                mapping_views(mappings@) == matching_pairs(ids, branches.take(i as int)),
            decreases remote_branches@.len() - i,
        {
            let remote_branch = trim_str(remote_branches[i]);
            let ghost before = mapping_views(mappings@);
            let mut j: usize = 0;
            while j < task_ids.len()
                invariant
                    j <= task_ids@.len(),
                    i < remote_branches@.len(),
                    ids == str_views(task_ids@),
                    branches == str_views(remote_branches@),
                    remote_branch@ == trim_seq(branches[i as int]),
                    mapping_views(mappings@) == before + branch_matches(
                        ids.take(j as int),
                        remote_branch@,
                    ),
                decreases task_ids@.len() - j,
            {
                assert(ids.take(j + 1).drop_last() =~= ids.take(j as int));
                assert(ids.take(j + 1).last() == task_ids@[j as int]@);
                if contains_str(remote_branch.as_str(), task_ids[j]) {
                    let ghost mid = mapping_views(mappings@);
                    mappings.push(
                        MatchedTaskBranchMapping(task_ids[j].to_owned(), remote_branch.clone()),
                    );
                    assert(mapping_views(mappings@) =~= mid.push(
                        (task_ids@[j as int]@, remote_branch@),
                    ));
                }
                j = j + 1;
            }
            assert(ids.take(j as int) =~= ids);
            assert(branches.take(i + 1).drop_last() =~= branches.take(i as int));
            i = i + 1;
        }
        assert(branches.take(i as int) =~= branches);
        mappings
    }

    /// Whether some output mentions the task id `id`.
    fn is_found(outputs: &Vec<MergeAllTasksOutput>, id: &str) -> (r: bool)
        ensures
            r == is_found(outputs@, id@),
    {
        let mut r: usize = 0;
        while r < outputs.len()
            invariant
                r <= outputs@.len(),
                forall|q: int| 0 <= q < r ==> !mentions(#[trigger] outputs@[q], id@),
            decreases outputs@.len() - r,
        {
            let output = &outputs[r];
            let mut k: usize = 0;
            while k < output.matched_task_branch_mappings.len()
                invariant
                    r < outputs@.len(),
                    *output == outputs@[r as int],
                    k <= output.matched_task_branch_mappings@.len(),
                    forall|q: int|
                        0 <= q < k ==> clean_task_id(
                            #[trigger] output.matched_task_branch_mappings@[q].0@,
                        ) != id@,
                decreases output.matched_task_branch_mappings@.len() - k,
            {
                if str_eq(clean_id(output.matched_task_branch_mappings[k].0.as_str()), id) {
                    assert(clean_task_id(output.matched_task_branch_mappings@[k as int].0@) == id@);
                    assert(mentions(outputs@[r as int], id@));
                    return true;
                }
                k = k + 1;
            }
            let mut k: usize = 0;
            while k < output.tasks_in_master_branch_by_task_id.len()
                invariant
                    r < outputs@.len(),
                    *output == outputs@[r as int],
                    k <= output.tasks_in_master_branch_by_task_id@.len(),
                    forall|q: int|
                        0 <= q < k ==> clean_task_id(
                            #[trigger] output.tasks_in_master_branch_by_task_id@[q].0@,
                        ) != id@,
                decreases output.tasks_in_master_branch_by_task_id@.len() - k,
            {
                if str_eq(clean_id(output.tasks_in_master_branch_by_task_id[k].0.as_str()), id) {
                    assert(clean_task_id(output.tasks_in_master_branch_by_task_id@[k as int].0@)
                        == id@);
                    assert(mentions(outputs@[r as int], id@));
                    return true;
                }
                k = k + 1;
            }
            r = r + 1;
        }
        false
    }

    /// The tasks, in order, that no repository mentions (no remote branch
    /// holds them and master has no commit of them), each with the user it is
    /// assigned to.
    pub fn find_not_found_tasks(
        merge_results: &Vec<MergeAllTasksOutput>,
        tasks: &Vec<Task>,
        task_assignees: &Vec<User>,
    ) -> (not_found: Vec<UserTaskMapping>)
        requires
            task_ids_distinct(tasks@),
            mentions_known_tasks(merge_results@, tasks@),
            unfound_tasks_assigned(merge_results@, tasks@, task_assignees@),
        ensures
            user_task_views(not_found@) == with_assignees(
                unfound_tasks(merge_results@, task_views(tasks@)),
            ),
    {
        let ghost tv = task_views(tasks@);
        let mut not_found: Vec<UserTaskMapping> = Vec::new();
        let mut t: usize = 0;
        while t < tasks.len()
            invariant
                t <= tasks@.len(),
                tv == task_views(tasks@),
                unfound_tasks_assigned(merge_results@, tasks@, task_assignees@),
                user_task_views(not_found@) == with_assignees(
                    unfound_tasks(merge_results@, tv.take(t as int)),
                ),
            decreases tasks@.len() - t,
        {
            let task = &tasks[t];
            assert(tv.take(t + 1).drop_last() =~= tv.take(t as int));
            assert(tv.take(t + 1).last() == task@);
            if !TaskUtil::is_found(merge_results, task.id.as_str()) {
                let phid = match &task.assigned_phid {
                    Some(p) => p,
                    None => {
                        assert(false);
                        return not_found;
                    },
                };
                let mut u: usize = 0;
                while u < task_assignees.len() && !str_eq(
                    task_assignees[u].phid.as_str(),
                    phid.as_str(),
                )
                    invariant
                        u <= task_assignees@.len(),
                        forall|q: int| 0 <= q < u ==> task_assignees@[q].phid@ != phid@,
                    decreases task_assignees@.len() - u,
                {
                    u = u + 1;
                }
                if u == task_assignees.len() {
                    assert(false);
                    return not_found;
                }
                let ghost before = user_task_views(not_found@);
                not_found.push(UserTaskMapping(task_assignees[u].clone(), task.clone()));
                assert(user_task_views(not_found@) =~= before.push((phid@, task@)));
                assert(with_assignees(unfound_tasks(merge_results@, tv.take(t + 1)))
                    =~= with_assignees(unfound_tasks(merge_results@, tv.take(t as int))).push(
                    (phid@, task@),
                ));
            } else {
                assert(unfound_tasks(merge_results@, tv.take(t + 1)) == unfound_tasks(
                    merge_results@,
                    tv.take(t as int),
                ));
            }
            t = t + 1;
        }
        assert(tv.take(t as int) =~= tv);
        not_found
    }
}

// ---------------------------------------------------------------------
// Commits of tasks in master
// ---------------------------------------------------------------------

/// The grep pattern that matches a line holding any of the ids: the ids
/// joined by `\|` (an id that leaves the pattern so far empty starts it).
pub open spec fn grep_pattern(ids: Seq<Seq<char>>) -> Seq<char>
    decreases ids.len(),
{
    if ids.len() == 0 {
        Seq::empty()
    } else {
        let acc = grep_pattern(ids.drop_last());
        if acc.len() == 0 {
            ids.last()
        } else {
            acc + seq!['\\', '|'] + ids.last()
        }
    }
}

/// The command that keeps the lines of `git log` that mention any of the
/// task ids: `grep {pattern}`.
pub fn grep_command(task_ids: &Vec<&str>) -> (command: String)
    ensures
        command@ == "grep "@ + grep_pattern(str_views(task_ids@)),
{
    let ghost ids = str_views(task_ids@);
    let mut pattern = String::new();
    let mut i: usize = 0;
    while i < task_ids.len()
        invariant
            i <= task_ids@.len(),
            ids == str_views(task_ids@),
            pattern@ == grep_pattern(ids.take(i as int)),
        decreases task_ids@.len() - i,
    {
        assert(ids.take(i + 1).drop_last() =~= ids.take(i as int));
        assert(ids.take(i + 1).last() == task_ids@[i as int]@);
        if pattern.as_str().unicode_len() == 0 {
            pattern = task_ids[i].to_owned();
        } else {
            let ghost before = pattern@;
            crate::text::push_char(&mut pattern, '\\');
            crate::text::push_char(&mut pattern, '|');
            append_str(&mut pattern, task_ids[i]);
            assert(pattern@ =~= before + seq!['\\', '|'] + task_ids@[i as int]@);
        }
        i = i + 1;
    }
    assert(ids.take(i as int) =~= ids);
    let mut command = String::new();
    append_str(&mut command, "grep ");
    append_str(&mut command, pattern.as_str());
    command
}

/// The lines that are no merge commits (do not hold `Merge pull request`).
pub open spec fn without_merges(lines: Seq<Seq<char>>) -> Seq<Seq<char>>
    decreases lines.len(),
{
    if lines.len() == 0 {
        Seq::empty()
    } else {
        let prev = without_merges(lines.drop_last());
        if contains_seq(lines.last(), "Merge pull request"@) {
            prev
        } else {
            prev.push(lines.last())
        }
    }
}

/// The commit messages of the lines that grep kept, merge commits left out.
pub fn commit_messages(grep_output: &str) -> (messages: Vec<String>)
    ensures
        views(messages@) == without_merges(text_lines(grep_output@)),
{
    let lines = lines_of(grep_output);
    let ghost lv = views(lines@);
    let mut messages: Vec<String> = Vec::new();
    let mut i: usize = 0;
    while i < lines.len()
        invariant
            i <= lines@.len(),
            lv == views(lines@),
            views(messages@) == without_merges(lv.take(i as int)),
        decreases lines@.len() - i,
    {
        assert(lv.take(i + 1).drop_last() =~= lv.take(i as int));
        assert(lv.take(i + 1).last() == lines@[i as int]@);
        if !contains_str(lines[i].as_str(), "Merge pull request") {
            let ghost before = views(messages@);
            messages.push(lines[i].clone());
            assert(views(messages@) =~= before.push(lines@[i as int]@));
        }
        i = i + 1;
    }
    assert(lv.take(i as int) =~= lv);
    messages
}

/// The messages, in order, that hold `id`.
pub open spec fn messages_with(messages: Seq<Seq<char>>, id: Seq<char>) -> Seq<Seq<char>>
    decreases messages.len(),
{
    if messages.len() == 0 {
        Seq::empty()
    } else {
        let prev = messages_with(messages.drop_last(), id);
        if contains_seq(messages.last(), id) {
            prev.push(messages.last())
        } else {
            prev
        }
    }
}

/// How often `k` occurs in `ids`.
pub open spec fn count_of(ids: Seq<Seq<char>>, k: Seq<char>) -> nat
    decreases ids.len(),
{
    if ids.len() == 0 {
        0
    } else {
        count_of(ids.drop_last(), k) + if ids.last() == k {
            1nat
        } else {
            0nat
        }
    }
}

/// `s` repeated `n` times.
pub open spec fn repeated(s: Seq<Seq<char>>, n: nat) -> Seq<Seq<char>>
    decreases n,
{
    if n == 0 {
        Seq::empty()
    } else {
        repeated(s, (n - 1) as nat) + s
    }
}

/// The commits of task `k` in master: every message that holds `k`, once for
/// every time `k` is among the task ids.
pub open spec fn commits_in_master(
    ids: Seq<Seq<char>>,
    messages: Seq<Seq<char>>,
    k: Seq<char>,
) -> Seq<Seq<char>> {
    repeated(messages_with(messages, k), count_of(ids, k))
}

/// The commit messages of commits in master.
pub open spec fn commit_views(v: Seq<TaskInMasterBranch>) -> Seq<Seq<char>> {
    v.map_values(|c: TaskInMasterBranch| c.commit_message@)
}

/// Every commit was recorded for task `id` of repository `repo`.
pub open spec fn made_for(
    commits: Seq<TaskInMasterBranch>,
    id: Seq<char>,
    repo: crate::config::RepositoryModel,
) -> bool {
    forall|j: int|
        0 <= j < commits.len() ==> #[trigger] commits[j].task_id@ == id && commits[j].repo_config@
            == repo
}

/// No two entries share a key.
pub open spec fn keys_distinct<V>(entries: Seq<(String, V)>) -> bool {
    forall|i: int, j: int|
        0 <= i < j < entries.len() ==> #[trigger] entries[i].0@ != #[trigger] entries[j].0@
}

/// The commits in master of the tasks, grouped by task: exactly the ids with
/// commits are keys, each once, and each holds its commits in master, made
/// for `repo`.
pub open spec fn groups_commits(
    out: Seq<(String, Vec<TaskInMasterBranch>)>,
    ids: Seq<Seq<char>>,
    messages: Seq<Seq<char>>,
    repo: crate::config::RepositoryModel,
) -> bool {
    &&& keys_distinct(out)
    &&& forall|i: int|
        0 <= i < out.len() ==> {
            &&& ids.contains(#[trigger] out[i].0@)
            &&& messages_with(messages, out[i].0@).len() > 0
            &&& commit_views(out[i].1@) == commits_in_master(ids, messages, out[i].0@)
            &&& made_for(out[i].1@, out[i].0@, repo)
        }
    &&& forall|k: Seq<char>|
        ids.contains(k) && messages_with(messages, k).len() > 0 ==> exists|i: int|
            0 <= i < out.len() && #[trigger] out[i].0@ == k
}

/// The messages that hold `id`, in order.
fn messages_containing(messages: &Vec<String>, id: &str) -> (found: Vec<String>)
    ensures
        views(found@) == messages_with(views(messages@), id@),
{
    let ghost mv = views(messages@);
    let mut found: Vec<String> = Vec::new();
    let mut i: usize = 0;
    while i < messages.len()
        invariant
            i <= messages@.len(),
            mv == views(messages@),
            views(found@) == messages_with(mv.take(i as int), id@),
        decreases messages@.len() - i,
    {
        assert(mv.take(i + 1).drop_last() =~= mv.take(i as int));
        assert(mv.take(i + 1).last() == messages@[i as int]@);
        if contains_str(messages[i].as_str(), id) {
            let ghost before = views(found@);
            found.push(messages[i].clone());
            assert(views(found@) =~= before.push(messages@[i as int]@));
        }
        i = i + 1;
    }
    assert(mv.take(i as int) =~= mv);
    found
}

/// How often `id` is among the ids.
fn count_id(task_ids: &Vec<&str>, id: &str) -> (n: usize)
    ensures
        n == count_of(str_views(task_ids@), id@),
{
    let ghost ids = str_views(task_ids@);
    let mut n: usize = 0;
    let mut i: usize = 0;
    while i < task_ids.len()
        invariant
            i <= task_ids@.len(),
            ids == str_views(task_ids@),
            n == count_of(ids.take(i as int), id@),
            n <= i,
        decreases task_ids@.len() - i,
    {
        assert(ids.take(i + 1).drop_last() =~= ids.take(i as int));
        assert(ids.take(i + 1).last() == task_ids@[i as int]@);
        if str_eq(task_ids[i], id) {
            n = n + 1;
        }
        i = i + 1;
    }
    assert(ids.take(i as int) =~= ids);
    n
}

/// A count of a key is positive exactly when the key occurs.
proof fn lemma_count_of(ids: Seq<Seq<char>>, k: Seq<char>)
    ensures
        count_of(ids, k) > 0 <==> ids.contains(k),
    decreases ids.len(),
{
    if ids.len() > 0 {
        lemma_count_of(ids.drop_last(), k);
        if ids.drop_last().contains(k) {
            let j = choose|j: int| 0 <= j < ids.drop_last().len() && ids.drop_last()[j] == k;
            assert(ids[j] == k);
        }
        if ids.contains(k) && ids.last() != k {
            let j = choose|j: int| 0 <= j < ids.len() && ids[j] == k;
            assert(ids.drop_last()[j] == k);
        }
    }
}

/// The commits in master of the tasks, grouped by task id: each id whose
/// commits (lines of the grep output that hold the id, merge commits left
/// out) are not empty is a key once, holding its commits once for every time
/// the id is among `task_ids`. Entries come in the order the ids first occur.
pub fn tasks_in_master_branch_by_task_id(
    repo_config: &RepositoryConfig,
    task_ids: &Vec<&str>,
    grep_output: &str,
) -> (by_task_id: Vec<(String, Vec<TaskInMasterBranch>)>)
    ensures
        groups_commits(
            by_task_id@,
            str_views(task_ids@),
            without_merges(text_lines(grep_output@)),
            repo_config@,
        ),
{
    let messages = commit_messages(grep_output);
    let ghost mv = views(messages@);
    let ghost ids = str_views(task_ids@);
    let mut out: Vec<(String, Vec<TaskInMasterBranch>)> = Vec::new();
    let mut i: usize = 0;
    while i < task_ids.len()
        invariant
            i <= task_ids@.len(),
            ids == str_views(task_ids@),
            mv == views(messages@),
            keys_distinct(out@),
            forall|e: int|
                0 <= e < out@.len() ==> {
                    &&& ids.take(i as int).contains(#[trigger] out@[e].0@)
                    &&& messages_with(mv, out@[e].0@).len() > 0
                    &&& commit_views(out@[e].1@) == commits_in_master(ids, mv, out@[e].0@)
                    &&& made_for(out@[e].1@, out@[e].0@, repo_config@)
                },
            forall|k: Seq<char>|
                ids.take(i as int).contains(k) && messages_with(mv, k).len() > 0 ==> exists|e: int|
                    0 <= e < out@.len() && #[trigger] out@[e].0@ == k,
        decreases task_ids@.len() - i,
    {
        let id = task_ids[i];
        assert(ids[i as int] == id@);
        let mut seen = false;
        let mut j: usize = 0;
        while j < i
            invariant
                j <= i < task_ids@.len(),
                ids == str_views(task_ids@),
                seen == ids.take(j as int).contains(id@),
            decreases i - j,
        {
            let same = str_eq(task_ids[j], id);
            proof {
                let before = ids.take(j as int);
                let after = ids.take(j + 1);
                assert(after =~= before.push(ids[j as int]));
                if same {
                    assert(after[j as int] == id@);
                } else if seen {
                    let q = choose|q: int| 0 <= q < j && before[q] == id@;
                    assert(after[q] == id@);
                } else if after.contains(id@) {
                    let q = choose|q: int| 0 <= q < j + 1 && after[q] == id@;
                    if q < j {
                        assert(before[q] == id@);
                    }
                }
            }
            if same {
                seen = true;
            }
            j = j + 1;
        }
        let ghost out0 = out@;
        let ghost id_msgs = messages_with(mv, id@);
        let ghost mut added = false;
        if !seen {
            let found = messages_containing(&messages, id);
            assert(views(found@) == id_msgs);
            if found.len() > 0 {
                let n = count_id(task_ids, id);
                proof {
                    lemma_count_of(ids, id@);
                    assert(ids.contains(id@));
                }
                let ghost fv = views(found@);
                let mut items: Vec<TaskInMasterBranch> = Vec::new();
                let mut r: usize = 0;
                while r < n
                    invariant
                        r <= n,
                        fv == views(found@),
                        commit_views(items@) == repeated(fv, r as nat),
                        made_for(items@, id@, repo_config@),
                    decreases n - r,
                {
                    let mut m: usize = 0;
                    while m < found.len()
                        invariant
                            r < n,
                            m <= found@.len(),
                            fv == views(found@),
                            commit_views(items@) == repeated(fv, r as nat) + fv.take(m as int),
                            made_for(items@, id@, repo_config@),
                        decreases found@.len() - m,
                    {
                        let ghost before = commit_views(items@);
                        let ghost items0 = items@;
                        items.push(
                            TaskInMasterBranch {
                                repo_config: repo_config.clone(),
                                commit_message: found[m].clone(),
                                task_id: id.to_owned(),
                            },
                        );
                        assert(commit_views(items@) =~= before.push(found@[m as int]@));
                        assert forall|q: int| 0 <= q < items@.len() implies #[trigger] items@[q].task_id@
                            == id@ && items@[q].repo_config@ == repo_config@ by {
                            if q < items0.len() {
                                assert(items@[q] == items0[q]);
                            }
                        }
                        assert(fv.take(m + 1) =~= fv.take(m as int).push(fv[m as int]));
                        m = m + 1;
                    }
                    assert(fv.take(m as int) =~= fv);
                    assert(repeated(fv, (r + 1) as nat) == repeated(fv, r as nat) + fv);
                    r = r + 1;
                }
                let ghost iv = items@;
                out.push((id.to_owned(), items));
                proof {
                    added = true;
                    assert(out@ == out0.push(out@.last()));
                    assert(out@.last().1@ == iv);
                }
            }
        }
        assert(added ==> out@ == out0.push(out@.last()) && out@.last().0@ == id@ && !seen
            && id_msgs.len() > 0 && commit_views(out@.last().1@) == commits_in_master(ids, mv, id@)
            && made_for(out@.last().1@, id@, repo_config@));
        assert(!added ==> out@ == out0);
        assert(!seen && id_msgs.len() > 0 ==> added);
        assert forall|a: int, b: int|
            0 <= a < b < out@.len() implies #[trigger] out@[a].0@ != #[trigger] out@[b].0@ by {
            if added && b == out@.len() - 1 {
                assert(out@[a] == out0[a]);
                assert(ids.take(i as int).contains(out0[a].0@));
            } else {
                assert(out@[a] == out0[a] && out@[b] == out0[b]);
            }
        }
        let ghost prev_ids = ids.take(i as int);
        let ghost next_ids = ids.take(i + 1);
        assert(next_ids[i as int] == id@);
        assert forall|q: int| 0 <= q < i implies next_ids[q] == prev_ids[q] by {}
        assert forall|e: int| 0 <= e < out@.len() implies {
            &&& next_ids.contains(#[trigger] out@[e].0@)
            &&& messages_with(mv, out@[e].0@).len() > 0
            &&& commit_views(out@[e].1@) == commits_in_master(ids, mv, out@[e].0@)
            &&& made_for(out@[e].1@, out@[e].0@, repo_config@)
        } by {
            if e < out0.len() {
                assert(out@[e] == out0[e]);
                assert(ids.take(i as int).contains(out0[e].0@));
                let q = choose|q: int| 0 <= q < i && prev_ids[q] == out@[e].0@;
                assert(next_ids[q] == out@[e].0@);
            } else {
                assert(out@[e] == out@.last());
                assert(next_ids[i as int] == out@[e].0@);
            }
        }
        assert forall|k: Seq<char>|
            next_ids.contains(k) && messages_with(mv, k).len() > 0 implies exists|e: int|
            0 <= e < out@.len() && #[trigger] out@[e].0@ == k by {
            let q = choose|q: int| 0 <= q < i + 1 && next_ids[q] == k;
            if q < i {
                assert(prev_ids[q] == k);
                assert(ids.take(i as int).contains(k));
                let e = choose|e: int| 0 <= e < out0.len() && #[trigger] out0[e].0@ == k;
                assert(out@[e] == out0[e]);
            } else if seen {
                let p = choose|p: int| 0 <= p < i && prev_ids[p] == id@;
                assert(prev_ids[p] == k);
                assert(ids.take(i as int).contains(k));
                let e = choose|e: int| 0 <= e < out0.len() && #[trigger] out0[e].0@ == k;
                assert(out@[e] == out0[e]);
            } else {
                assert(out@[out@.len() - 1].0@ == k);
            }
        }
        i = i + 1;
    }
    assert(ids.take(i as int) =~= ids);
    out
}

// ---------------------------------------------------------------------
// Merging one branch through a pull request
// ---------------------------------------------------------------------

/// Why the merge of a branch failed in a way that lets the merges of the
/// other branches go on.
#[derive(Debug)]
pub enum GitError {
    /// The pull request could not be merged.
    MergeError { message: String, remote_branch: String, pull_request_url: String },
    /// The remote branch has no commits that master lacks (it was merged
    /// already, or nothing was pushed to it yet).
    RemoteBranchIsBehindMasterError { remote_branch: String, debug_url: String },
}

/// The message of a `GitError`.
pub open spec fn git_error_text(e: GitError) -> Seq<char> {
    match e {
        GitError::MergeError { message, pull_request_url, .. } => "Merge failed err: "@ + message@
            + ". Please see "@ + pull_request_url@,
        GitError::RemoteBranchIsBehindMasterError { remote_branch, .. } =>
            "Remote branch is behind master(no changes to master), remote branch "@
            + remote_branch@,
    }
}

impl GitError {
    /// The message of the error.
    pub fn to_string(&self) -> (s: String)
        ensures
            s@ == git_error_text(*self),
    {
        let mut s = String::new();
        match self {
            GitError::MergeError { message, pull_request_url, .. } => {
                append_str(&mut s, "Merge failed err: ");
                append_str(&mut s, message.as_str());
                append_str(&mut s, ". Please see ");
                append_str(&mut s, pull_request_url.as_str());
            },
            GitError::RemoteBranchIsBehindMasterError { remote_branch, .. } => {
                append_str(&mut s, "Remote branch is behind master(no changes to master), remote branch ");
                append_str(&mut s, remote_branch.as_str());
            },
        }
        s
    }

    /// The remote branch the error is about.
    pub fn remote_branch(&self) -> (b: &String)
        ensures
            b == (match *self {
                GitError::MergeError { remote_branch, .. } => remote_branch,
                GitError::RemoteBranchIsBehindMasterError { remote_branch, .. } => remote_branch,
            }),
    {
        match self {
            GitError::MergeError { remote_branch, .. } => remote_branch,
            GitError::RemoteBranchIsBehindMasterError { remote_branch, .. } => remote_branch,
        }
    }

    /// Where to look at what went wrong: the pull request, or the branch.
    pub fn debug_url(&self) -> (u: &String)
        ensures
            u == (match *self {
                GitError::MergeError { pull_request_url, .. } => pull_request_url,
                GitError::RemoteBranchIsBehindMasterError { debug_url, .. } => debug_url,
            }),
    {
        match self {
            GitError::MergeError { pull_request_url, .. } => pull_request_url,
            GitError::RemoteBranchIsBehindMasterError { debug_url, .. } => debug_url,
        }
    }
}

/// An error of a merge operation: merging `remote_branch` failed; its pull
/// request tells more.
#[derive(Debug, Clone)]
pub enum ClientOperationError {
    MergeError { remote_branch: String, pull_request_url: String },
}

/// The message of a `ClientOperationError`.
pub open spec fn client_operation_error_text(e: ClientOperationError) -> Seq<char> {
    match e {
        ClientOperationError::MergeError { pull_request_url, .. } => "Merge failed, please see "@
            + pull_request_url@,
    }
}

impl ClientOperationError {
    /// The message of the error.
    pub fn to_string(&self) -> (s: String)
        ensures
            s@ == client_operation_error_text(*self),
    {
        let mut s = String::new();
        match self {
            ClientOperationError::MergeError { pull_request_url, .. } => {
                append_str(&mut s, "Merge failed, please see ");
                append_str(&mut s, pull_request_url.as_str());
            },
        }
        s
    }
}

/// A merge that failed: the remote branch and its pull request.
#[derive(Debug)]
pub struct FailedMergeOutput {
    pub remote_branch: String,
    pub pull_request_url: String,
}

impl FailedMergeOutput {
    /// The failed merge that a merge error tells of.
    pub fn from_merge_error(err: &ClientOperationError) -> (out: FailedMergeOutput)
        ensures
            match *err {
                ClientOperationError::MergeError { remote_branch, pull_request_url } => out.remote_branch@
                    == remote_branch@ && out.pull_request_url@ == pull_request_url@,
            },
    {
        match err {
            ClientOperationError::MergeError { remote_branch, pull_request_url } => FailedMergeOutput {
                remote_branch: remote_branch.clone(),
                pull_request_url: pull_request_url.clone(),
            },
        }
    }
}

/// Why the merge of a branch failed: a `GitError`, after which the other
/// merges go on, or any other error (its message), which stops them all.
#[derive(Debug)]
pub enum MergeFailure {
    Git(GitError),
    Other(String),
}

/// The second `/`-separated segment of a remote branch (`origin/T12_fix`
/// gives `T12_fix`), or `fallback` when there is none.
pub open spec fn second_segment_or(branch: Seq<char>, fallback: Seq<char>) -> Seq<char> {
    let parts = split_on(branch, '/');
    if parts.len() > 1 {
        parts[1]
    } else {
        fallback
    }
}

/// The title of the pull request of a task's branch: `[{segment}] {name}`,
/// the segment being the branch name after the remote, or the task id.
pub fn pull_request_title(remote_branch: &str, task_id: &str, task_name: &str) -> (title: String)
    ensures
        title@ == "["@ + second_segment_or(remote_branch@, task_id@) + "] "@ + task_name@,
{
    let parts = split_str(remote_branch, '/');
    let mut title = String::new();
    append_str(&mut title, "[");
    if parts.len() > 1 {
        append_str(&mut title, parts[1].as_str());
    } else {
        append_str(&mut title, task_id);
    }
    append_str(&mut title, "] ");
    append_str(&mut title, task_name);
    title
}

/// The branch name of a remote branch: its last `/`-separated segment.
pub fn branch_name(remote_branch: &str) -> (name: String)
    ensures
        name@ == split_on(remote_branch@, '/').last(),
{
    let mut parts = split_str(remote_branch, '/');
    proof {
        crate::text::lemma_split_from_nonempty(Seq::empty(), remote_branch@, '/');
    }
    parts.pop().unwrap()
}

/// The owner of a github repository path (`sendyhalim/foo` gives
/// `sendyhalim`): its first `/`-separated segment.
pub fn branch_owner(repo_path: &str) -> (owner: String)
    ensures
        owner@ == split_on(repo_path@, '/')[0],
{
    let mut parts = split_str(repo_path, '/');
    proof {
        crate::text::lemma_split_from_nonempty(Seq::empty(), repo_path@, '/');
    }
    parts.swap_remove(0)
}

/// The github page of a pull request.
pub open spec fn pull_request_url_text(repo_path: Seq<char>, pull_number: Seq<char>) -> Seq<char> {
    "https://github.com/"@ + repo_path + "/pull/"@ + pull_number
}

/// The github page of a branch.
pub open spec fn branch_url_text(repo_path: Seq<char>, branch: Seq<char>) -> Seq<char> {
    "https://github.com/"@ + repo_path + "/tree/"@ + branch
}

/// The github page of a pull request.
pub fn pull_request_url(repo_path: &str, pull_number: &str) -> (url: String)
    ensures
        url@ == pull_request_url_text(repo_path@, pull_number@),
{
    let mut url = String::new();
    append_str(&mut url, "https://github.com/");
    append_str(&mut url, repo_path);
    append_str(&mut url, "/pull/");
    append_str(&mut url, pull_number);
    url
}

/// The github page of a branch.
pub fn branch_url(repo_path: &str, branch: &str) -> (url: String)
    ensures
        url@ == branch_url_text(repo_path@, branch@),
{
    let mut url = String::new();
    append_str(&mut url, "https://github.com/");
    append_str(&mut url, repo_path);
    append_str(&mut url, "/tree/");
    append_str(&mut url, branch);
    url
}

/// What `str::to_lowercase` makes of a text (Unicode lower case).
pub uninterp spec fn lowercase_text(s: Seq<char>) -> Seq<char>;

/// `str::to_lowercase`; its result is given a name only.
#[verifier::external_body]
fn to_lowercase(s: &str) -> (r: String)
    ensures
        r@ == lowercase_text(s@),
{
    s.to_lowercase()
}

/// How github merges a pull request: a merge commit, or one squashed commit.
#[derive(Debug, Clone, Copy, PartialEq, Eq, Structural)]
pub enum MergeMethod {
    Merge,
    Squash,
}

/// What merging a branch needs: the repository on github, the title of the
/// pull request to create, the branch to merge and the branch to merge into.
#[derive(Debug)]
pub struct MergeRemoteBranchInput {
    /// How github merges the pull request.
    pub merge_method: MergeMethod,
    pub repo_path: String,
    pub pull_request_title: String,
    pub source_branch_name: String,
    pub into_branch_name: String,
}

/// What merging reads of a github pull request: whether github considers it
/// mergeable (unknown while github computes it) and its number as text.
#[derive(Debug)]
pub struct PullRequestState {
    pub mergeable: Option<bool>,
    pub number: String,
}

/// Where the merge of a branch stands.
#[derive(Debug)]
pub enum MergeRemoteBranchState {
    /// Looking for an open pull request of the branch.
    Fetching,
    /// Creating the pull request, as there was none.
    Creating,
    /// Fetching the pull request again after creating it.
    Refetching,
    /// Merging the pull request.
    Merging { pull_request_url: String },
    /// Done.
    Finished,
}

/// What came back from github.
#[derive(Debug)]
pub enum MergeRemoteBranchEvent {
    /// The open pull request of the branch, if any.
    PullRequestFetched(Option<PullRequestState>),
    /// Creating the pull request failed with this message.
    PullRequestCreateFailed(String),
    /// The pull request was created.
    PullRequestCreated,
    /// The answer to the merge: its `merged` flag (`None` when it is no
    /// boolean), or the message of the error.
    MergeResponded(Result<Option<bool>, String>),
}

/// What to do next.
#[derive(Debug)]
pub enum MergeRemoteBranchAction {
    /// Create a pull request of the source branch into the target branch.
    CreatePullRequest,
    /// Give github time to compute mergeability, then fetch the pull
    /// request again.
    WaitThenRefetch,
    /// Merge the pull request of this number.
    MergePullRequest { pull_number: String, merge_method: MergeMethod },
    /// The merge is over, with this outcome.
    Finish(Result<SuccesfulMergeOutput, MergeFailure>),
}

/// The events that can come in each state.
pub open spec fn event_expected(state: MergeRemoteBranchState, event: MergeRemoteBranchEvent) -> bool {
    match state {
        MergeRemoteBranchState::Fetching => event is PullRequestFetched,
        MergeRemoteBranchState::Refetching => event matches MergeRemoteBranchEvent::PullRequestFetched(
            Some(_),
        ),
        MergeRemoteBranchState::Creating => event is PullRequestCreateFailed || event is PullRequestCreated,
        MergeRemoteBranchState::Merging { .. } => event is MergeResponded,
        MergeRemoteBranchState::Finished => false,
    }
}

/// The step taken on a pull request that was found: a pull request that
/// github finds not mergeable fails the merge, any other is merged.
pub open spec fn on_pull_request(
    input: MergeRemoteBranchInput,
    pr: PullRequestState,
    next: MergeRemoteBranchState,
    action: MergeRemoteBranchAction,
) -> bool {
    let url = pull_request_url_text(input.repo_path@, pr.number@);
    if pr.mergeable == Some(false) {
        &&& next is Finished
        &&& action matches MergeRemoteBranchAction::Finish(
            Err(MergeFailure::Git(GitError::MergeError { message, remote_branch, pull_request_url })),
        )
        &&& message@ == "mergeable field is falsy (false)"@
        &&& remote_branch@ == input.source_branch_name@
        &&& pull_request_url@ == url
    } else {
        &&& next matches MergeRemoteBranchState::Merging { pull_request_url }
        &&& pull_request_url@ == url
        &&& action matches MergeRemoteBranchAction::MergePullRequest { pull_number, merge_method }
        &&& pull_number@ == pr.number@
        &&& merge_method == input.merge_method
    }
}

/// The step taken on each event in each state.
pub open spec fn merge_step(
    input: MergeRemoteBranchInput,
    state: MergeRemoteBranchState,
    event: MergeRemoteBranchEvent,
    next: MergeRemoteBranchState,
    action: MergeRemoteBranchAction,
) -> bool {
    match event {
        MergeRemoteBranchEvent::PullRequestFetched(None) => next is Creating && action is CreatePullRequest,
        MergeRemoteBranchEvent::PullRequestFetched(Some(pr)) => on_pull_request(input, pr, next, action),
        MergeRemoteBranchEvent::PullRequestCreateFailed(err) => {
            &&& next is Finished
            &&& if starts_with_seq(lowercase_text(err@), "no commits between master"@) {
                &&& action matches MergeRemoteBranchAction::Finish(
                    Err(MergeFailure::Git(GitError::RemoteBranchIsBehindMasterError { remote_branch, debug_url })),
                )
                &&& remote_branch@ == input.source_branch_name@
                &&& debug_url@ == branch_url_text(input.repo_path@, input.source_branch_name@)
            } else {
                action matches MergeRemoteBranchAction::Finish(Err(MergeFailure::Other(e))) && e@ == err@
            }
        },
        MergeRemoteBranchEvent::PullRequestCreated => next is Refetching && action is WaitThenRefetch,
        MergeRemoteBranchEvent::MergeResponded(response) => {
            let url = state->Merging_pull_request_url@;
            &&& next is Finished
            &&& match response {
                Err(err) => action matches MergeRemoteBranchAction::Finish(
                    Err(MergeFailure::Git(GitError::MergeError { message, remote_branch, pull_request_url })),
                ) && message@ == err@ && remote_branch@ == input.source_branch_name@
                    && pull_request_url@ == url,
                Ok(None) => action matches MergeRemoteBranchAction::Finish(Err(MergeFailure::Other(e)))
                    && e@ == "Failed to parse merge pull request 'merged' to bool"@,
                Ok(Some(false)) => action matches MergeRemoteBranchAction::Finish(
                    Err(MergeFailure::Git(GitError::MergeError { message, remote_branch, pull_request_url })),
                ) && message@ == "Not sure why"@ && remote_branch@ == input.source_branch_name@
                    && pull_request_url@ == url,
                Ok(Some(true)) => action matches MergeRemoteBranchAction::Finish(Ok(out))
                    && out.remote_branch@ == input.source_branch_name@ && out.pull_request_url@ == url,
            }
        },
    }
}

/// How many answers from github a merge still awaits at most.
pub open spec fn steps_left(state: MergeRemoteBranchState) -> nat {
    match state {
        MergeRemoteBranchState::Fetching => 4,
        MergeRemoteBranchState::Creating => 3,
        MergeRemoteBranchState::Refetching => 2,
        MergeRemoteBranchState::Merging { .. } => 1,
        MergeRemoteBranchState::Finished => 0,
    }
}

/// Every step of a merge on an answer it expects brings it closer to its end,
/// so a merge that starts by fetching ends after at most four answers; and it
/// ends exactly on a step whose action is `Finish`.
pub proof fn lemma_merge_steps_end(
    input: MergeRemoteBranchInput,
    state: MergeRemoteBranchState,
    event: MergeRemoteBranchEvent,
    next: MergeRemoteBranchState,
    action: MergeRemoteBranchAction,
)
    requires
        event_expected(state, event),
        merge_step(input, state, event, next, action),
    ensures
        steps_left(next) < steps_left(state),
        next is Finished <==> action is Finish,
{
}

/// A pull request that was found is merged unless github finds it not
/// mergeable: when `mergeable` is `true` (or github could not tell), the next
/// state is `Merging` with the pull request's page and the action merges
/// that pull request's number; only when it is `false` does the merge end
/// with a `MergeError` for the source branch.
pub proof fn lemma_found_pull_request_step(
    input: MergeRemoteBranchInput,
    state: MergeRemoteBranchState,
    pr: PullRequestState,
    next: MergeRemoteBranchState,
    action: MergeRemoteBranchAction,
)
    requires
        merge_step(input, state, MergeRemoteBranchEvent::PullRequestFetched(Some(pr)), next, action),
    ensures
        pr.mergeable != Some(false) ==> (next matches MergeRemoteBranchState::Merging { pull_request_url }
            && pull_request_url@ == "https://github.com/"@ + input.repo_path@ + "/pull/"@ + pr.number@),
        pr.mergeable != Some(false) ==> (action matches MergeRemoteBranchAction::MergePullRequest {
            pull_number,
            merge_method,
        } && pull_number@ == pr.number@ && merge_method == input.merge_method),
        pr.mergeable == Some(false) ==> next is Finished && (action matches MergeRemoteBranchAction::Finish(
            Err(MergeFailure::Git(GitError::MergeError { remote_branch, pull_request_url, .. })),
        ) && remote_branch@ == input.source_branch_name@ && pull_request_url@ == "https://github.com/"@
            + input.repo_path@ + "/pull/"@ + pr.number@),
{
}

/// Merging a branch through a pull request, one step at a time: given where
/// the merge stands and what github answered, where it stands next and what
/// to do. The pull request is created when there is none, fetched again after
/// that, failed when github finds it not mergeable, and else merged; a
/// creation that fails because the branch has nothing to merge, and a merge
/// that fails, end the merge with a `GitError`.
pub fn next_merge_step(
    input: &MergeRemoteBranchInput,
    state: MergeRemoteBranchState,
    event: MergeRemoteBranchEvent,
) -> (r: (MergeRemoteBranchState, MergeRemoteBranchAction))
    requires
        event_expected(state, event),
    ensures
        merge_step(*input, state, event, r.0, r.1),
{
    match event {
        MergeRemoteBranchEvent::PullRequestFetched(None) => (
            MergeRemoteBranchState::Creating,
            MergeRemoteBranchAction::CreatePullRequest,
        ),
        MergeRemoteBranchEvent::PullRequestFetched(Some(pr)) => {
            let url = pull_request_url(input.repo_path.as_str(), pr.number.as_str());
            if pr.mergeable == Some(false) {
                (
                    MergeRemoteBranchState::Finished,
                    MergeRemoteBranchAction::Finish(
                        Err(
                            MergeFailure::Git(
                                GitError::MergeError {
                                    message: "mergeable field is falsy (false)".to_owned(),
                                    remote_branch: input.source_branch_name.clone(),
                                    pull_request_url: url,
                                },
                            ),
                        ),
                    ),
                )
            } else {
                (
                    MergeRemoteBranchState::Merging { pull_request_url: url },
                    MergeRemoteBranchAction::MergePullRequest {
                        pull_number: pr.number,
                        merge_method: input.merge_method,
                    },
                )
            }
        },
        MergeRemoteBranchEvent::PullRequestCreateFailed(err) => {
            let lowered = to_lowercase(err.as_str());
            if crate::text::starts_with_str(lowered.as_str(), "no commits between master") {
                let debug_url = branch_url(
                    input.repo_path.as_str(),
                    input.source_branch_name.as_str(),
                );
                (
                    MergeRemoteBranchState::Finished,
                    MergeRemoteBranchAction::Finish(
                        Err(
                            MergeFailure::Git(
                                GitError::RemoteBranchIsBehindMasterError {
                                    remote_branch: input.source_branch_name.clone(),
                                    debug_url,
                                },
                            ),
                        ),
                    ),
                )
            } else {
                (
                    MergeRemoteBranchState::Finished,
                    MergeRemoteBranchAction::Finish(Err(MergeFailure::Other(err))),
                )
            }
        },
        MergeRemoteBranchEvent::PullRequestCreated => (
            MergeRemoteBranchState::Refetching,
            MergeRemoteBranchAction::WaitThenRefetch,
        ),
        MergeRemoteBranchEvent::MergeResponded(response) => {
            let url = match state {
                MergeRemoteBranchState::Merging { pull_request_url } => pull_request_url,
                _ => {
                    assert(false);
                    String::new()
                },
            };
            let outcome = match response {
                Err(err) => Err(
                    MergeFailure::Git(
                        GitError::MergeError {
                            message: err,
                            remote_branch: input.source_branch_name.clone(),
                            pull_request_url: url,
                        },
                    ),
                ),
                Ok(None) => Err(
                    MergeFailure::Other(
                        "Failed to parse merge pull request 'merged' to bool".to_owned(),
                    ),
                ),
                Ok(Some(false)) => Err(
                    MergeFailure::Git(
                        GitError::MergeError {
                            message: "Not sure why".to_owned(),
                            remote_branch: input.source_branch_name.clone(),
                            pull_request_url: url,
                        },
                    ),
                ),
                Ok(Some(true)) => Ok(
                    SuccesfulMergeOutput {
                        remote_branch: input.source_branch_name.clone(),
                        pull_request_url: url,
                    },
                ),
            };
            (MergeRemoteBranchState::Finished, MergeRemoteBranchAction::Finish(outcome))
        },
    }
}

// ---------------------------------------------------------------------
// Outputs of merging a repository
// ---------------------------------------------------------------------

/// A commit in master that mentions a task.
#[derive(Debug)]
pub struct TaskInMasterBranch {
    pub repo_config: RepositoryConfig,
    pub commit_message: String,
    pub task_id: String,
}

impl View for TaskInMasterBranch {
    type V = (crate::config::RepositoryModel, Seq<char>, Seq<char>);

    open spec fn view(&self) -> (crate::config::RepositoryModel, Seq<char>, Seq<char>) {
        (self.repo_config@, self.commit_message@, self.task_id@)
    }
}

impl Clone for TaskInMasterBranch {
    fn clone(&self) -> (r: Self)
        ensures
            r@ == self@,
    {
        TaskInMasterBranch {
            repo_config: self.repo_config.clone(),
            commit_message: self.commit_message.clone(),
            task_id: self.task_id.clone(),
        }
    }
}

/// A branch merged through its pull request.
#[derive(Debug)]
pub struct SuccesfulMergeOutput {
    pub remote_branch: String,
    pub pull_request_url: String,
}

/// A task whose branch was merged.
#[derive(Debug)]
pub struct SuccesfulMergeTaskOutput {
    pub repo_config: RepositoryConfig,
    pub task_id: String,
    pub remote_branch: String,
    pub pull_request_url: String,
}

/// The view of a merged task: repository, task id, remote branch, pull
/// request page.
pub type SuccessModel = (crate::config::RepositoryModel, Seq<char>, Seq<char>, Seq<char>);

impl View for SuccesfulMergeTaskOutput {
    type V = SuccessModel;

    open spec fn view(&self) -> SuccessModel {
        (self.repo_config@, self.task_id@, self.remote_branch@, self.pull_request_url@)
    }
}

impl Clone for SuccesfulMergeTaskOutput {
    fn clone(&self) -> (r: Self)
        ensures
            r@ == self@,
    {
        SuccesfulMergeTaskOutput {
            repo_config: self.repo_config.clone(),
            task_id: self.task_id.clone(),
            remote_branch: self.remote_branch.clone(),
            pull_request_url: self.pull_request_url.clone(),
        }
    }
}

/// A task whose branch could not be merged.
#[derive(Debug)]
pub struct FailedMergeTaskOutput {
    pub repo_config: RepositoryConfig,
    pub task_id: String,
    pub remote_branch: String,
    pub debug_url: String,
    pub message: String,
}

/// The view of a task that failed to merge: repository, task id, remote
/// branch, page to look at, message.
pub type FailureModel = (
    crate::config::RepositoryModel,
    Seq<char>,
    Seq<char>,
    Seq<char>,
    Seq<char>,
);

impl View for FailedMergeTaskOutput {
    type V = FailureModel;

    open spec fn view(&self) -> FailureModel {
        (self.repo_config@, self.task_id@, self.remote_branch@, self.debug_url@, self.message@)
    }
}

impl Clone for FailedMergeTaskOutput {
    fn clone(&self) -> (r: Self)
        ensures
            r@ == self@,
    {
        FailedMergeTaskOutput {
            repo_config: self.repo_config.clone(),
            task_id: self.task_id.clone(),
            remote_branch: self.remote_branch.clone(),
            debug_url: self.debug_url.clone(),
            message: self.message.clone(),
        }
    }
}

/// What merging the branches of the tasks did in one repository. The `by_task_id`
/// fields are maps held as entries with distinct keys.
#[derive(Debug)]
pub struct MergeAllTasksOutput {
    pub repo_path: String,
    pub tasks_in_master_branch_by_task_id: Vec<(String, Vec<TaskInMasterBranch>)>,
    pub matched_task_branch_mappings: Vec<MatchedTaskBranchMapping>,
    pub successful_merge_task_output_by_task_id: Vec<(String, SuccesfulMergeTaskOutput)>,
    pub failed_merge_task_output_by_task_id: Vec<(String, FailedMergeTaskOutput)>,
}

/// Puts `value` under `key`: it replaces the entry of `key` when there is
/// one, and is added at the end otherwise. Returns where it went.
fn upsert<V>(entries: &mut Vec<(String, V)>, key: String, value: V) -> (at: usize)
    requires
        keys_distinct(old(entries)@),
    ensures
        keys_distinct(final(entries)@),
        at <= old(entries)@.len(),
        at < old(entries)@.len() ==> old(entries)@[at as int].0@ == key@ && final(entries)@
            == old(entries)@.update(at as int, (key, value)),
        at == old(entries)@.len() ==> (forall|j: int|
            0 <= j < old(entries)@.len() ==> old(entries)@[j].0@ != key@) && final(entries)@
            == old(entries)@.push((key, value)),
{
    let ghost old_entries = entries@;
    let mut j: usize = 0;
    while j < entries.len()
        invariant
            entries@ == old_entries,
            old_entries == old(entries)@,
            keys_distinct(old_entries),
            j <= entries@.len(),
            forall|q: int| 0 <= q < j ==> entries@[q].0@ != key@,
        decreases entries@.len() - j,
    {
        if str_eq(entries[j].0.as_str(), key.as_str()) {
            let ghost k = key@;
            entries.set(j, (key, value));
            assert forall|a: int, b: int|
                0 <= a < b < entries@.len() implies #[trigger] entries@[a].0@
                != #[trigger] entries@[b].0@ by {
                if a == j as int {
                    assert(old_entries[a].0@ == k);
                    assert(old_entries[a].0@ != old_entries[b].0@);
                } else if b == j as int {
                    assert(old_entries[b].0@ == k);
                    assert(old_entries[a].0@ != old_entries[b].0@);
                } else {
                    assert(old_entries[a].0@ != old_entries[b].0@);
                }
            }
            return j;
        }
        j = j + 1;
    }
    let at = entries.len();
    let ghost k = key@;
    entries.push((key, value));
    assert forall|a: int, b: int|
        0 <= a < b < entries@.len() implies #[trigger] entries@[a].0@ != #[trigger] entries@[b].0@ by {
        if b == at as int {
            assert(old_entries[a].0@ != k);
        } else {
            assert(old_entries[a].0@ != old_entries[b].0@);
        }
    }
    at
}

/// The outcome of merging a task's branch.
pub type MergeResult = (String, Result<SuccesfulMergeOutput, MergeFailure>);

/// An outcome that is an error other than a `GitError`.
pub open spec fn is_stopper(r: Result<SuccesfulMergeOutput, MergeFailure>) -> bool {
    r matches Err(MergeFailure::Other(_))
}

/// An outcome that is a `GitError`.
pub open spec fn is_git_failure(r: Result<SuccesfulMergeOutput, MergeFailure>) -> bool {
    r matches Err(MergeFailure::Git(_))
}

/// The index of the first outcome that is an error other than a `GitError`.
pub open spec fn first_stopper(results: Seq<MergeResult>) -> Option<int>
    decreases results.len(),
{
    if results.len() == 0 {
        None
    } else if is_stopper(results[0].1) {
        Some(0)
    } else {
        match first_stopper(results.drop_first()) {
            Some(i) => Some(i + 1),
            None => None,
        }
    }
}

/// The index of the last successful outcome for task `k`.
pub open spec fn last_success(results: Seq<MergeResult>, k: Seq<char>) -> Option<int>
    decreases results.len(),
{
    if results.len() == 0 {
        None
    } else if results.last().0@ == k && results.last().1 is Ok {
        Some(results.len() - 1)
    } else {
        last_success(results.drop_last(), k)
    }
}

/// The index of the last outcome for task `k` that is a `GitError`.
pub open spec fn last_git_failure(results: Seq<MergeResult>, k: Seq<char>) -> Option<int>
    decreases results.len(),
{
    if results.len() == 0 {
        None
    } else if results.last().0@ == k && is_git_failure(results.last().1) {
        Some(results.len() - 1)
    } else {
        last_git_failure(results.drop_last(), k)
    }
}

/// The outcome `last_success` finds is one of the outcomes.
proof fn lemma_last_success(results: Seq<MergeResult>, k: Seq<char>)
    ensures
        last_success(results, k) matches Some(i) ==> 0 <= i < results.len(),
    decreases results.len(),
{
    if results.len() > 0 {
        lemma_last_success(results.drop_last(), k);
    }
}

/// The outcome `last_git_failure` finds is one of the outcomes.
proof fn lemma_last_git_failure(results: Seq<MergeResult>, k: Seq<char>)
    ensures
        last_git_failure(results, k) matches Some(i) ==> 0 <= i < results.len(),
    decreases results.len(),
{
    if results.len() > 0 {
        lemma_last_git_failure(results.drop_last(), k);
    }
}

/// The view of the merged task of a successful outcome.
pub open spec fn success_view(repo: crate::config::RepositoryModel, r: MergeResult) -> SuccessModel {
    (repo, r.0@, r.1->Ok_0.remote_branch@, r.1->Ok_0.pull_request_url@)
}

/// The view of the failed task of an outcome that is a `GitError`.
pub open spec fn failure_view(repo: crate::config::RepositoryModel, r: MergeResult) -> FailureModel {
    let e = r.1->Err_0->Git_0;
    (
        repo,
        r.0@,
        match e {
            GitError::MergeError { remote_branch, .. } => remote_branch@,
            GitError::RemoteBranchIsBehindMasterError { remote_branch, .. } => remote_branch@,
        },
        match e {
            GitError::MergeError { pull_request_url, .. } => pull_request_url@,
            GitError::RemoteBranchIsBehindMasterError { debug_url, .. } => debug_url@,
        },
        git_error_text(e),
    )
}

/// The merged tasks by task id, as a map built from the outcomes in order:
/// each task with a successful outcome once, from its last such outcome.
pub open spec fn successes_by_task(
    entries: Seq<(String, SuccesfulMergeTaskOutput)>,
    results: Seq<MergeResult>,
    repo: crate::config::RepositoryModel,
) -> bool {
    &&& keys_distinct(entries)
    &&& forall|e: int|
        0 <= e < entries.len() ==> (last_success(results, #[trigger] entries[e].0@) matches Some(
            i,
        ) && entries[e].1@ == success_view(repo, results[i]))
    &&& forall|i: int|
        0 <= i < results.len() && results[i].1 is Ok ==> exists|e: int|
            0 <= e < entries.len() && #[trigger] entries[e].0@ == results[i].0@
}

/// The failed tasks by task id, as a map built from the outcomes in order:
/// each task with an outcome that is a `GitError` once, from its last such
/// outcome.
pub open spec fn failures_by_task(
    entries: Seq<(String, FailedMergeTaskOutput)>,
    results: Seq<MergeResult>,
    repo: crate::config::RepositoryModel,
) -> bool {
    &&& keys_distinct(entries)
    &&& forall|e: int|
        0 <= e < entries.len() ==> (last_git_failure(results, #[trigger] entries[e].0@) matches Some(
            i,
        ) && entries[e].1@ == failure_view(repo, results[i]))
    &&& forall|i: int|
        0 <= i < results.len() && is_git_failure(results[i].1) ==> exists|e: int|
            0 <= e < entries.len() && #[trigger] entries[e].0@ == results[i].0@
}

/// Facts about `first_stopper`.
proof fn lemma_first_stopper(results: Seq<MergeResult>)
    ensures
        first_stopper(results) matches Some(i) ==> 0 <= i < results.len() && is_stopper(results[i].1)
            && forall|j: int| 0 <= j < i ==> !is_stopper(results[j].1),
        first_stopper(results) is None ==> forall|j: int|
            0 <= j < results.len() ==> !is_stopper(results[j].1),
    decreases results.len(),
{
    if results.len() > 0 && !is_stopper(results[0].1) {
        let rest = results.drop_first();
        lemma_first_stopper(rest);
        assert forall|j: int| 1 <= j < results.len() implies results[j] == rest[j - 1] by {}
    }
}

/// Builds the output of merging a repository from the commits of the tasks
/// in master, the matched branches and the outcome of merging each of them,
/// in order. An outcome that is an error other than a `GitError` stops it all:
/// the first such error is returned. Otherwise the successes and the failures
/// are gathered by task id, a later outcome replacing an earlier one.
pub fn merge_all_tasks_output(
    repo_config: &RepositoryConfig,
    tasks_in_master_branch_by_task_id: Vec<(String, Vec<TaskInMasterBranch>)>,
    matched_task_branch_mappings: Vec<MatchedTaskBranchMapping>,
    results: &Vec<MergeResult>,
) -> (r: Result<MergeAllTasksOutput, String>)
    ensures
        match first_stopper(results@) {
            Some(i) => r matches Err(m) && m@ == results@[i].1->Err_0->Other_0@,
            None => r matches Ok(out) && {
                &&& out.repo_path@ == repo_config.github_path@
                &&& out.tasks_in_master_branch_by_task_id == tasks_in_master_branch_by_task_id
                &&& out.matched_task_branch_mappings == matched_task_branch_mappings
                &&& successes_by_task(
                    out.successful_merge_task_output_by_task_id@,
                    results@,
                    repo_config@,
                )
                &&& failures_by_task(
                    out.failed_merge_task_output_by_task_id@,
                    results@,
                    repo_config@,
                )
            },
        },
{
    proof {
        lemma_first_stopper(results@);
    }
    let mut i: usize = 0;
    while i < results.len()
        invariant
            i <= results@.len(),
            forall|j: int| 0 <= j < i ==> !is_stopper(results@[j].1),
        decreases results@.len() - i,
    {
        if let Err(MergeFailure::Other(message)) = &results[i].1 {
            proof {
                lemma_first_stopper(results@);
                assert(is_stopper(results@[i as int].1));
            }
            return Err(message.clone());
        }
        i = i + 1;
    }
    let ghost rs = results@;
    let mut successes: Vec<(String, SuccesfulMergeTaskOutput)> = Vec::new();
    let mut failures: Vec<(String, FailedMergeTaskOutput)> = Vec::new();
    let mut i: usize = 0;
    while i < results.len()
        invariant
            i <= results@.len(),
            rs == results@,
            forall|j: int| 0 <= j < rs.len() ==> !is_stopper(rs[j].1),
            successes_by_task(successes@, rs.take(i as int), repo_config@),
            failures_by_task(failures@, rs.take(i as int), repo_config@),
        decreases results@.len() - i,
    {
        let key = &results[i].0;
        let ghost prev = rs.take(i as int);
        let ghost next = rs.take(i + 1);
        assert(next.drop_last() =~= prev);
        assert(next.last() == rs[i as int]);
        assert forall|q: int| 0 <= q < i implies next[q] == prev[q] by {}
        let ghost s0 = successes@;
        let ghost f0 = failures@;
        match &results[i].1 {
            Ok(merged) => {
                let at = upsert(
                    &mut successes,
                    key.clone(),
                    SuccesfulMergeTaskOutput {
                        repo_config: repo_config.clone(),
                        task_id: key.clone(),
                        remote_branch: merged.remote_branch.clone(),
                        pull_request_url: merged.pull_request_url.clone(),
                    },
                );
                proof {
                    assert(successes@[at as int].1@ == success_view(repo_config@, rs[i as int]));
                    assert(last_success(next, key@) == Some(i as int));
                    assert forall|e: int| 0 <= e < successes@.len() implies (last_success(
                        next,
                        #[trigger] successes@[e].0@,
                    ) matches Some(q) && successes@[e].1@ == success_view(repo_config@, next[q])) by {
                        if e != at as int {
                            assert(successes@[e] == s0[e]);
                            assert(s0[e].0@ != key@);
                            assert(last_success(next, s0[e].0@) == last_success(prev, s0[e].0@));
                            lemma_last_success(prev, s0[e].0@);
                            let q = last_success(prev, s0[e].0@)->0;
                            assert(s0[e].1@ == success_view(repo_config@, prev[q]));
                            assert(prev[q] == next[q]);
                        } else {
                            assert(successes@[e].0@ == key@);
                            assert(next[i as int] == rs[i as int]);
                        }
                    }
                    assert forall|q: int| 0 <= q < next.len() && next[q].1 is Ok implies exists|e: int|
                        0 <= e < successes@.len() && #[trigger] successes@[e].0@ == next[q].0@ by {
                        if q < i {
                            assert(prev[q].1 is Ok);
                            let e = choose|e: int| 0 <= e < s0.len() && #[trigger] s0[e].0@ == prev[q].0@;
                            if e == at as int {
                                assert(successes@[e].0@ == key@);
                            } else {
                                assert(successes@[e] == s0[e]);
                            }
                        } else {
                            assert(successes@[at as int].0@ == key@);
                        }
                    }
                    assert forall|e: int| 0 <= e < failures@.len() implies (last_git_failure(
                        next,
                        #[trigger] failures@[e].0@,
                    ) matches Some(q) && failures@[e].1@ == failure_view(repo_config@, next[q])) by {
                        assert(last_git_failure(next, failures@[e].0@) == last_git_failure(
                            prev,
                            failures@[e].0@,
                        ));
                        lemma_last_git_failure(prev, failures@[e].0@);
                        let q = last_git_failure(prev, failures@[e].0@)->0;
                        assert(prev[q] == next[q]);
                    }
                    assert forall|q: int|
                        0 <= q < next.len() && is_git_failure(next[q].1) implies exists|e: int|
                        0 <= e < failures@.len() && #[trigger] failures@[e].0@ == next[q].0@ by {
                        assert(q < i);
                        assert(prev[q] == next[q]);
                    }
                }
            },
            Err(MergeFailure::Git(error)) => {
                let at = upsert(
                    &mut failures,
                    key.clone(),
                    FailedMergeTaskOutput {
                        repo_config: repo_config.clone(),
                        task_id: key.clone(),
                        remote_branch: error.remote_branch().clone(),
                        debug_url: error.debug_url().clone(),
                        message: error.to_string(),
                    },
                );
                proof {
                    assert(failures@[at as int].1@ == failure_view(repo_config@, rs[i as int]));
                    assert(last_git_failure(next, key@) == Some(i as int));
                    assert forall|e: int| 0 <= e < failures@.len() implies (last_git_failure(
                        next,
                        #[trigger] failures@[e].0@,
                    ) matches Some(q) && failures@[e].1@ == failure_view(repo_config@, next[q])) by {
                        if e != at as int {
                            assert(failures@[e] == f0[e]);
                            assert(f0[e].0@ != key@);
                            assert(last_git_failure(next, f0[e].0@) == last_git_failure(prev, f0[e].0@));
                            lemma_last_git_failure(prev, f0[e].0@);
                            let q = last_git_failure(prev, f0[e].0@)->0;
                            assert(f0[e].1@ == failure_view(repo_config@, prev[q]));
                            assert(prev[q] == next[q]);
                        } else {
                            assert(failures@[e].0@ == key@);
                            assert(next[i as int] == rs[i as int]);
                        }
                    }
                    assert forall|q: int|
                        0 <= q < next.len() && is_git_failure(next[q].1) implies exists|e: int|
                        0 <= e < failures@.len() && #[trigger] failures@[e].0@ == next[q].0@ by {
                        if q < i {
                            assert(prev[q] == next[q]);
                            let e = choose|e: int| 0 <= e < f0.len() && #[trigger] f0[e].0@ == prev[q].0@;
                            if e == at as int {
                                assert(failures@[e].0@ == key@);
                            } else {
                                assert(failures@[e] == f0[e]);
                            }
                        } else {
                            assert(failures@[at as int].0@ == key@);
                        }
                    }
                    assert forall|e: int| 0 <= e < successes@.len() implies (last_success(
                        next,
                        #[trigger] successes@[e].0@,
                    ) matches Some(q) && successes@[e].1@ == success_view(repo_config@, next[q])) by {
                        assert(last_success(next, successes@[e].0@) == last_success(
                            prev,
                            successes@[e].0@,
                        ));
                        lemma_last_success(prev, successes@[e].0@);
                        let q = last_success(prev, successes@[e].0@)->0;
                        assert(prev[q] == next[q]);
                    }
                    assert forall|q: int| 0 <= q < next.len() && next[q].1 is Ok implies exists|e: int|
                        0 <= e < successes@.len() && #[trigger] successes@[e].0@ == next[q].0@ by {
                        assert(q < i);
                        assert(prev[q] == next[q]);
                    }
                }
            },
            Err(MergeFailure::Other(_)) => {
                assert(false);
            },
        }
        i = i + 1;
    }
    assert(rs.take(i as int) =~= rs);
    Ok(
        MergeAllTasksOutput {
            repo_path: repo_config.github_path.clone(),
            tasks_in_master_branch_by_task_id,
            matched_task_branch_mappings,
            successful_merge_task_output_by_task_id: successes,
            failed_merge_task_output_by_task_id: failures,
        },
    )
}

// ---------------------------------------------------------------------
// Choosing what to merge
// ---------------------------------------------------------------------

/// The keys of repositories, in order.
pub open spec fn repository_keys(repositories: Seq<RepositoryConfig>) -> Seq<Seq<char>> {
    repositories.map_values(|r: RepositoryConfig| r.key@)
}

/// The repository of `repo_key` (the last one with that key), or the message
/// `Invalid repo key {repo_key}` when none has it.
pub fn find_repository<'a>(repositories: &'a Vec<RepositoryConfig>, repo_key: &str) -> (r: Result<
    &'a RepositoryConfig,
    String,
>)
    ensures
        match last_index_of(repository_keys(repositories@), repo_key@) {
            Some(i) => r matches Ok(repo) && *repo == repositories@[i],
            None => r matches Err(m) && m@ == "Invalid repo key "@ + repo_key@,
        },
{
    let ghost keys = repository_keys(repositories@);
    let mut i: usize = repositories.len();
    assert(keys.take(i as int) =~= keys);
    while i > 0
        invariant
            i <= repositories@.len(),
            keys == repository_keys(repositories@),
            last_index_of(keys, repo_key@) == last_index_of(keys.take(i as int), repo_key@),
        decreases i,
    {
        assert(keys.take(i as int).drop_last() =~= keys.take(i - 1));
        assert(keys.take(i as int).last() == repositories@[i - 1].key@);
        if str_eq(repositories[i - 1].key.as_str(), repo_key) {
            return Ok(&repositories[i - 1]);
        }
        i = i - 1;
    }
    let mut m = String::new();
    append_str(&mut m, "Invalid repo key ");
    append_str(&mut m, repo_key);
    Err(m)
}

/// What deploying a repository with the scheme of `scheme_key` merges: the
/// scheme's source branch into its target branch under its pull request
/// title, with a merge commit; or the message `Invalid scheme key {scheme_key}` when the
/// repository has no such scheme.
pub fn deploy_input(repo_config: &RepositoryConfig, scheme_key: &str) -> (r: Result<
    MergeRemoteBranchInput,
    String,
>)
    ensures
        match last_index_of(repo_config.scheme_keys(), scheme_key@) {
            Some(i) => r matches Ok(input) && {
                let scheme = repo_config.deployment_scheme_by_key@[i].1;
                &&& input.repo_path@ == repo_config.github_path@
                &&& input.pull_request_title@ == scheme.default_pull_request_title@
                &&& input.source_branch_name@ == scheme.merge_from_branch@
                &&& input.into_branch_name@ == scheme.merge_into_branch@
                &&& input.merge_method == MergeMethod::Merge
            },
            None => r matches Err(m) && m@ == "Invalid scheme key "@ + scheme_key@,
        },
{
    match repo_config.find_scheme(scheme_key) {
        Some(scheme) => Ok(
            MergeRemoteBranchInput {
                merge_method: MergeMethod::Merge,
                repo_path: repo_config.github_path.clone(),
                pull_request_title: scheme.default_pull_request_title.clone(),
                source_branch_name: scheme.merge_from_branch.clone(),
                into_branch_name: scheme.merge_into_branch.clone(),
            },
        ),
        None => {
            let mut m = String::new();
            append_str(&mut m, "Invalid scheme key ");
            append_str(&mut m, scheme_key);
            Err(m)
        },
    }
}

/// The tasks of `s`, in order, but those with the id `id`.
pub open spec fn without_id(s: Seq<TaskModel>, id: Seq<char>) -> Seq<TaskModel>
    decreases s.len(),
{
    if s.len() == 0 {
        Seq::empty()
    } else {
        let prev = without_id(s.drop_last(), id);
        if s.last().0 == id {
            prev
        } else {
            prev.push(s.last())
        }
    }
}

/// The tasks kept by id, a later task replacing an earlier one of the same
/// id: each task goes to the end, after the tasks of other ids kept so far.
pub open spec fn last_by_id(s: Seq<TaskModel>) -> Seq<TaskModel>
    decreases s.len(),
{
    if s.len() == 0 {
        Seq::empty()
    } else {
        without_id(last_by_id(s.drop_last()), s.last().0).push(s.last())
    }
}

/// No two task views share an id.
pub open spec fn view_ids_distinct(s: Seq<TaskModel>) -> bool {
    forall|i: int, j: int| 0 <= i < j < s.len() ==> (#[trigger] s[i]).0 != (#[trigger] s[j]).0
}

/// Leaving out an id keeps only tasks of `s`, none with that id, and keeps
/// the ids distinct.
proof fn lemma_without_id(s: Seq<TaskModel>, id: Seq<char>)
    ensures
        forall|k: int| 0 <= k < without_id(s, id).len() ==> (#[trigger] without_id(s, id)[k]).0 != id,
        forall|k: int| 0 <= k < without_id(s, id).len() ==> s.contains(#[trigger] without_id(s, id)[k]),
        view_ids_distinct(s) ==> view_ids_distinct(without_id(s, id)),
    decreases s.len(),
{
    if s.len() > 0 {
        let init = s.drop_last();
        let p = without_id(init, id);
        lemma_without_id(init, id);
        let w = without_id(s, id);
        assert forall|k: int| 0 <= k < w.len() implies s.contains(#[trigger] w[k]) by {
            if k < p.len() {
                assert(w[k] == p[k]);
                let q = choose|q: int| 0 <= q < init.len() && init[q] == p[k];
                assert(s[q] == init[q]);
            } else {
                assert(w[k] == s[s.len() - 1]);
            }
        }
        assert forall|k: int| 0 <= k < w.len() implies (#[trigger] w[k]).0 != id by {
            if k < p.len() {
                assert(w[k] == p[k]);
            }
        }
        if view_ids_distinct(s) {
            assert(view_ids_distinct(init)) by {
                assert forall|i: int, j: int| 0 <= i < j < init.len() implies (#[trigger] init[i]).0 != (#[trigger] init[j]).0 by {
                    assert(init[i] == s[i] && init[j] == s[j]);
                }
            }
            assert forall|i: int, j: int| 0 <= i < j < w.len() implies (#[trigger] w[i]).0 != (#[trigger] w[j]).0 by {
                if j < p.len() {
                    assert(w[i] == p[i] && w[j] == p[j]);
                } else {
                    assert(w[i] == p[i]);
                    assert(w[j] == s.last());
                    let q = choose|q: int| 0 <= q < init.len() && init[q] == p[i];
                    assert(s[q] == init[q]);
                }
            }
        }
    }
}

/// Keeping tasks by id leaves no two tasks with the same id.
proof fn lemma_last_by_id_distinct(s: Seq<TaskModel>)
    ensures
        view_ids_distinct(last_by_id(s)),
    decreases s.len(),
{
    if s.len() > 0 {
        lemma_last_by_id_distinct(s.drop_last());
        let p = without_id(last_by_id(s.drop_last()), s.last().0);
        lemma_without_id(last_by_id(s.drop_last()), s.last().0);
        let r = p.push(s.last());
        assert forall|i: int, j: int| 0 <= i < j < r.len() implies (#[trigger] r[i]).0 != (#[trigger] r[j]).0 by {
            assert(r[i] == p[i]);
            if j < p.len() {
                assert(r[j] == p[j]);
            }
        }
    }
}

/// `kept` without the tasks of id `id`.
fn remove_id(kept: Vec<Task>, id: &str) -> (r: Vec<Task>)
    ensures
        task_views(r@) == without_id(task_views(kept@), id@),
{
    let ghost kv = task_views(kept@);
    let mut r: Vec<Task> = Vec::new();
    let mut i: usize = 0;
    while i < kept.len()
        invariant
            i <= kept@.len(),
            kv == task_views(kept@),
            task_views(r@) == without_id(kv.take(i as int), id@),
        decreases kept@.len() - i,
    {
        assert(kv.take(i + 1).drop_last() =~= kv.take(i as int));
        assert(kv.take(i + 1).last() == kept@[i as int]@);
        if !str_eq(kept[i].id.as_str(), id) {
            let ghost before = task_views(r@);
            r.push(kept[i].clone());
            assert(task_views(r@) =~= before.push(kept@[i as int]@));
        }
        i = i + 1;
    }
    assert(kv.take(i as int) =~= kv);
    r
}

/// The tasks kept by id, as a map from id to task built in order keeps them:
/// a later task replaces an earlier one of the same id. No two of them share
/// an id.
pub fn distinct_tasks(tasks: &Vec<Task>) -> (r: Vec<Task>)
    ensures
        task_views(r@) == last_by_id(task_views(tasks@)),
        task_ids_distinct(r@),
{
    let ghost tv = task_views(tasks@);
    let mut kept: Vec<Task> = Vec::new();
    let mut i: usize = 0;
    while i < tasks.len()
        invariant
            i <= tasks@.len(),
            tv == task_views(tasks@),
            task_views(kept@) == last_by_id(tv.take(i as int)),
        decreases tasks@.len() - i,
    {
        assert(tv.take(i + 1).drop_last() =~= tv.take(i as int));
        assert(tv.take(i + 1).last() == tasks@[i as int]@);
        let mut next = remove_id(kept, tasks[i].id.as_str());
        let ghost before = task_views(next@);
        next.push(tasks[i].clone());
        assert(task_views(next@) =~= before.push(tasks@[i as int]@));
        kept = next;
        i = i + 1;
    }
    assert(tv.take(i as int) =~= tv);
    proof {
        lemma_last_by_id_distinct(tv);
        let kv = task_views(kept@);
        assert forall|a: int, b: int| 0 <= a < b < kept@.len() implies #[trigger] kept@[a].id@ != #[trigger] kept@[b].id@ by {
            assert(kv[a].0 == kept@[a].id@ && kv[b].0 == kept@[b].id@);
        }
    }
    kept
}

/// Whether a task has the id `id`.
pub open spec fn has_task(tasks: Seq<Task>, id: Seq<char>) -> bool {
    exists|t: int| 0 <= t < tasks.len() && #[trigger] tasks[t].id@ == id
}

/// What merging the branch of a matched task merges: the branch (its last
/// `/`-separated segment) into `master`, squashed into one commit, under the
/// title `[{segment}] {task name}`.
pub fn task_merge_input(
    repo_config: &RepositoryConfig,
    tasks: &Vec<Task>,
    mapping: &MatchedTaskBranchMapping,
) -> (input: MergeRemoteBranchInput)
    requires
        task_ids_distinct(tasks@),
        has_task(tasks@, mapping.0@),
    ensures
        input.repo_path@ == repo_config.github_path@,
        input.source_branch_name@ == split_on(mapping.1@, '/').last(),
        input.into_branch_name@ == "master"@,
        input.merge_method == MergeMethod::Squash,
        forall|t: int|
            0 <= t < tasks@.len() && #[trigger] tasks@[t].id@ == mapping.0@
                ==> input.pull_request_title@ == "["@ + second_segment_or(mapping.1@, mapping.0@)
                + "] "@ + tasks@[t].name@,
{
    let mut t: usize = 0;
    while t < tasks.len() && !str_eq(tasks[t].id.as_str(), mapping.0.as_str())
        invariant
            t <= tasks@.len(),
            forall|q: int| 0 <= q < t ==> tasks@[q].id@ != mapping.0@,
        decreases tasks@.len() - t,
    {
        t = t + 1;
    }
    if t == tasks.len() {
        assert(false);
        t = 0;
    }
    let title = pull_request_title(mapping.1.as_str(), mapping.0.as_str(), tasks[t].name.as_str());
    MergeRemoteBranchInput {
        merge_method: MergeMethod::Squash,
        repo_path: repo_config.github_path.clone(),
        pull_request_title: title,
        source_branch_name: branch_name(mapping.1.as_str()),
        into_branch_name: "master".to_owned(),
    }
}

/// The assignee phids of the tasks, in order.
pub fn assignee_phids(tasks: &Vec<Task>) -> (phids: Vec<String>)
    requires
        forall|t: int| 0 <= t < tasks@.len() ==> (#[trigger] tasks@[t].assigned_phid) is Some,
    ensures
        phids@.len() == tasks@.len(),
        forall|t: int| 0 <= t < tasks@.len() ==> opt_view(#[trigger] tasks@[t].assigned_phid) == Some(
            phids@[t]@,
        ),
{
    let mut phids: Vec<String> = Vec::new();
    let mut t: usize = 0;
    while t < tasks.len()
        invariant
            t <= tasks@.len(),
            forall|q: int| 0 <= q < tasks@.len() ==> (#[trigger] tasks@[q].assigned_phid) is Some,
            phids@.len() == t,
            forall|q: int| 0 <= q < t ==> opt_view(#[trigger] tasks@[q].assigned_phid) == Some(
                phids@[q]@,
            ),
        decreases tasks@.len() - t,
    {
        match &tasks[t].assigned_phid {
            Some(p) => phids.push(p.clone()),
            None => {
                assert(false);
            },
        }
        t = t + 1;
    }
    phids
}

/// The tasks, in order, whose ids are among the tasks not found.
pub open spec fn found_tasks_spec(tasks: Seq<TaskModel>, not_found: Seq<(Seq<char>, TaskModel)>) -> Seq<
    TaskModel,
>
    decreases tasks.len(),
{
    if tasks.len() == 0 {
        Seq::empty()
    } else {
        let prev = found_tasks_spec(tasks.drop_last(), not_found);
        if exists|k: int| 0 <= k < not_found.len() && #[trigger] not_found[k].1.0 == tasks.last().0 {
            prev
        } else {
            prev.push(tasks.last())
        }
    }
}

/// A task is kept by `found_tasks_spec` exactly when it is one of the tasks
/// and no mapping of `not_found` names its id.
proof fn lemma_found_tasks_spec_contains(
    tasks: Seq<TaskModel>,
    not_found: Seq<(Seq<char>, TaskModel)>,
    t: TaskModel,
)
    ensures
        found_tasks_spec(tasks, not_found).contains(t) <==> tasks.contains(t) && !(exists|k: int|
            0 <= k < not_found.len() && #[trigger] not_found[k].1.0 == t.0),
    decreases tasks.len(),
{
    if tasks.len() > 0 {
        let init = tasks.drop_last();
        lemma_found_tasks_spec_contains(init, not_found, t);
        assert(tasks =~= init.push(tasks.last()));
        if tasks.contains(t) && t != tasks.last() {
            let i = choose|i: int| 0 <= i < tasks.len() && tasks[i] == t;
            assert(init[i] == t);
        }
        if init.contains(t) {
            let i = choose|i: int| 0 <= i < init.len() && init[i] == t;
            assert(tasks[i] == t);
        }
        let prev = found_tasks_spec(init, not_found);
        if prev.contains(t) {
            let i = choose|i: int| 0 <= i < prev.len() && prev[i] == t;
            assert(prev.push(tasks.last())[i] == t);
        }
        if prev.push(tasks.last()).contains(t) && t != tasks.last() {
            let i = choose|i: int| 0 <= i < prev.push(tasks.last()).len() && prev.push(tasks.last())[i] == t;
            assert(prev[i] == t);
        }
        assert(prev.push(tasks.last())[prev.len() as int] == tasks.last());
        assert(tasks[tasks.len() - 1] == tasks.last());
    }
}

/// A task is left unfound exactly when it is one of the tasks and no
/// repository merged it.
proof fn lemma_unfound_tasks_contains(outputs: Seq<MergeAllTasksOutput>, tasks: Seq<TaskModel>, t: TaskModel)
    ensures
        unfound_tasks(outputs, tasks).contains(t) <==> tasks.contains(t) && !is_found(outputs, t.0),
    decreases tasks.len(),
{
    if tasks.len() > 0 {
        let init = tasks.drop_last();
        lemma_unfound_tasks_contains(outputs, init, t);
        if tasks.contains(t) && t != tasks.last() {
            let i = choose|i: int| 0 <= i < tasks.len() && tasks[i] == t;
            assert(init[i] == t);
        }
        if init.contains(t) {
            let i = choose|i: int| 0 <= i < init.len() && init[i] == t;
            assert(tasks[i] == t);
        }
        let prev = unfound_tasks(outputs, init);
        if prev.contains(t) {
            let i = choose|i: int| 0 <= i < prev.len() && prev[i] == t;
            assert(prev.push(tasks.last())[i] == t);
        }
        if prev.push(tasks.last()).contains(t) && t != tasks.last() {
            let i = choose|i: int| 0 <= i < prev.push(tasks.last()).len() && prev.push(tasks.last())[i] == t;
            assert(prev[i] == t);
        }
        assert(prev.push(tasks.last())[prev.len() as int] == tasks.last());
        assert(tasks[tasks.len() - 1] == tasks.last());
    }
}

/// The tasks found by a run are exactly the tasks that some repository
/// merged: `found_tasks`, given the mappings that `find_not_found_tasks`
/// gives, keeps a task when and only when a merge output mentions its id.
pub proof fn lemma_found_exactly_merged(outputs: Seq<MergeAllTasksOutput>, tasks: Seq<TaskModel>, t: TaskModel)
    ensures
        found_tasks_spec(tasks, with_assignees(unfound_tasks(outputs, tasks))).contains(t) <==> tasks.contains(t)
            && is_found(outputs, t.0),
{
    let unfound = unfound_tasks(outputs, tasks);
    let nf = with_assignees(unfound);
    lemma_found_tasks_spec_contains(tasks, nf, t);
    if tasks.contains(t) {
        if is_found(outputs, t.0) {
            if exists|k: int| 0 <= k < nf.len() && #[trigger] nf[k].1.0 == t.0 {
                let k = choose|k: int| 0 <= k < nf.len() && #[trigger] nf[k].1.0 == t.0;
                let u = unfound[k];
                assert(nf[k].1 == u);
                assert(unfound.contains(u));
                lemma_unfound_tasks_contains(outputs, tasks, u);
            }
        } else {
            lemma_unfound_tasks_contains(outputs, tasks, t);
            let k = choose|k: int| 0 <= k < unfound.len() && unfound[k] == t;
            assert(nf[k].1 == t);
            assert(nf[k].1.0 == t.0);
        }
    }
}

/// The tasks, in order, that are not among the tasks not found.
pub fn found_tasks(tasks: &Vec<Task>, not_found: &Vec<UserTaskMapping>) -> (found: Vec<Task>)
    ensures
        task_views(found@) == found_tasks_spec(task_views(tasks@), user_task_views(not_found@)),
{
    let ghost tv = task_views(tasks@);
    let ghost nv = user_task_views(not_found@);
    let mut found: Vec<Task> = Vec::new();
    let mut t: usize = 0;
    while t < tasks.len()
        invariant
            t <= tasks@.len(),
            tv == task_views(tasks@),
            nv == user_task_views(not_found@),
            task_views(found@) == found_tasks_spec(tv.take(t as int), nv),
        decreases tasks@.len() - t,
    {
        assert(tv.take(t + 1).drop_last() =~= tv.take(t as int));
        assert(tv.take(t + 1).last() == tasks@[t as int]@);
        let mut k: usize = 0;
        while k < not_found.len() && !str_eq(not_found[k].1.id.as_str(), tasks[t].id.as_str())
            invariant
                k <= not_found@.len(),
                t < tasks@.len(),
                nv == user_task_views(not_found@),
                forall|q: int| 0 <= q < k ==> nv[q].1.0 != tasks@[t as int].id@,
            decreases not_found@.len() - k,
        {
            k = k + 1;
        }
        if k == not_found.len() {
            let ghost before = task_views(found@);
            found.push(tasks[t].clone());
            assert(task_views(found@) =~= before.push(tasks@[t as int]@));
        } else {
            assert(nv[k as int].1.0 == tv.take(t + 1).last().0);
        }
        t = t + 1;
    }
    assert(tv.take(t as int) =~= tv);
    found
}

/// The tasks, in order, that some output mentions.
pub open spec fn found_by_outputs(outputs: Seq<MergeAllTasksOutput>, tasks: Seq<TaskModel>) -> Seq<
    TaskModel,
>
    decreases tasks.len(),
{
    if tasks.len() == 0 {
        Seq::empty()
    } else {
        let prev = found_by_outputs(outputs, tasks.drop_last());
        if is_found(outputs, tasks.last().0) {
            prev.push(tasks.last())
        } else {
            prev
        }
    }
}

/// A task of id `x` is among the tasks not found exactly when `x` is the id
/// of one of the tasks and no output mentions it.
proof fn lemma_unfound_ids(outputs: Seq<MergeAllTasksOutput>, tasks: Seq<TaskModel>, x: Seq<char>)
    ensures
        (exists|k: int|
            0 <= k < unfound_tasks(outputs, tasks).len() && (#[trigger] unfound_tasks(
                outputs,
                tasks,
            )[k]).0 == x) <==> (!is_found(outputs, x) && exists|i: int|
            0 <= i < tasks.len() && (#[trigger] tasks[i]).0 == x),
    decreases tasks.len(),
{
    if tasks.len() > 0 {
        let init = tasks.drop_last();
        let prev = unfound_tasks(outputs, init);
        let u = unfound_tasks(outputs, tasks);
        lemma_unfound_ids(outputs, init, x);
        if exists|k: int| 0 <= k < u.len() && (#[trigger] u[k]).0 == x {
            let k = choose|k: int| 0 <= k < u.len() && (#[trigger] u[k]).0 == x;
            if k < prev.len() {
                assert(prev[k] == u[k]);
                let i = choose|i: int| 0 <= i < init.len() && (#[trigger] init[i]).0 == x;
                assert(tasks[i] == init[i]);
            } else {
                assert(tasks[tasks.len() - 1].0 == x);
            }
        }
        if !is_found(outputs, x) && exists|i: int| 0 <= i < tasks.len() && (#[trigger] tasks[i]).0
            == x {
            let i = choose|i: int| 0 <= i < tasks.len() && (#[trigger] tasks[i]).0 == x;
            if i < init.len() {
                assert(init[i] == tasks[i]);
                let k = choose|k: int| 0 <= k < prev.len() && (#[trigger] prev[k]).0 == x;
                assert(u[k] == prev[k]);
            } else {
                assert(u[u.len() - 1] == tasks.last());
            }
        }
    }
}

proof fn lemma_found_prefix(outputs: Seq<MergeAllTasksOutput>, tasks: Seq<TaskModel>, n: int)
    requires
        0 <= n <= tasks.len(),
    ensures
        found_tasks_spec(tasks.take(n), with_assignees(unfound_tasks(outputs, tasks)))
            == found_by_outputs(outputs, tasks.take(n)),
        found_by_outputs(outputs, tasks.take(n)).len() + unfound_tasks(outputs, tasks.take(n)).len()
            == n,
    decreases n,
{
    let not_found = with_assignees(unfound_tasks(outputs, tasks));
    let u = unfound_tasks(outputs, tasks);
    if n > 0 {
        lemma_found_prefix(outputs, tasks, n - 1);
        let p = tasks.take(n);
        assert(p.drop_last() =~= tasks.take(n - 1));
        let x = p.last().0;
        assert(p.last() == tasks[n - 1]);
        lemma_unfound_ids(outputs, tasks, x);
        if exists|k: int| 0 <= k < not_found.len() && #[trigger] not_found[k].1.0 == x {
            let k = choose|k: int| 0 <= k < not_found.len() && #[trigger] not_found[k].1.0 == x;
            assert(not_found[k].1 == u[k]);
        }
        if !is_found(outputs, x) {
            let k = choose|k: int| 0 <= k < u.len() && (#[trigger] u[k]).0 == x;
            assert(not_found[k].1 == u[k]);
        }
    }
}

/// Every task is either found by the outputs or among the tasks not found,
/// never both: `found_tasks` of the tasks and of what `find_not_found_tasks`
/// gave back are the tasks that some output mentions, and the two lists
/// together are as long as the tasks.
pub proof fn lemma_tasks_found_or_not_found(outputs: Seq<MergeAllTasksOutput>, tasks: Seq<TaskModel>)
    ensures
        found_tasks_spec(tasks, with_assignees(unfound_tasks(outputs, tasks))) == found_by_outputs(
            outputs,
            tasks,
        ),
        found_by_outputs(outputs, tasks).len() + unfound_tasks(outputs, tasks).len() == tasks.len(),
{
    lemma_found_prefix(outputs, tasks, tasks.len() as int);
    assert(tasks.take(tasks.len() as int) =~= tasks);
}

// ---------------------------------------------------------------------
// Summary by task
// ---------------------------------------------------------------------

/// What happened to one task over all repositories.
#[derive(Debug)]
pub struct TaskMergeSummary {
    pub success_merge_results: Vec<SuccesfulMergeTaskOutput>,
    pub failed_merge_results: Vec<FailedMergeTaskOutput>,
    pub already_in_master_branch_related_commits: Vec<TaskInMasterBranch>,
}

/// The value of the last entry with key `k`, if any.
pub open spec fn entry_for<V>(entries: Seq<(String, V)>, k: Seq<char>) -> Option<V>
    decreases entries.len(),
{
    if entries.len() == 0 {
        None
    } else if entries.last().0@ == k {
        Some(entries.last().1)
    } else {
        entry_for(entries.drop_last(), k)
    }
}

/// The value of the last entry with key `key`, if any.
fn find_entry<'a, V>(entries: &'a Vec<(String, V)>, key: &str) -> (r: Option<&'a V>)
    ensures
        match entry_for(entries@, key@) {
            Some(v) => r matches Some(x) && *x == v,
            None => r is None,
        },
{
    let mut i: usize = entries.len();
    assert(entries@.take(i as int) =~= entries@);
    while i > 0
        invariant
            i <= entries@.len(),
            entry_for(entries@, key@) == entry_for(entries@.take(i as int), key@),
        decreases i,
    {
        assert(entries@.take(i as int).drop_last() =~= entries@.take(i - 1));
        if str_eq(entries[i - 1].0.as_str(), key) {
            return Some(&entries[i - 1].1);
        }
        i = i - 1;
    }
    None
}

/// The commits in master of task `k` over all repositories, in order.
pub open spec fn summary_commits(outputs: Seq<MergeAllTasksOutput>, k: Seq<char>) -> Seq<
    (crate::config::RepositoryModel, Seq<char>, Seq<char>),
>
    decreases outputs.len(),
{
    if outputs.len() == 0 {
        Seq::empty()
    } else {
        summary_commits(outputs.drop_last(), k) + match entry_for(
            outputs.last().tasks_in_master_branch_by_task_id@,
            k,
        ) {
            Some(v) => v@.map_values(|c: TaskInMasterBranch| c@),
            None => Seq::empty(),
        }
    }
}

/// The successful merges of task `k` over all repositories, in order.
pub open spec fn summary_successes(outputs: Seq<MergeAllTasksOutput>, k: Seq<char>) -> Seq<
    SuccessModel,
>
    decreases outputs.len(),
{
    if outputs.len() == 0 {
        Seq::empty()
    } else {
        summary_successes(outputs.drop_last(), k) + match entry_for(
            outputs.last().successful_merge_task_output_by_task_id@,
            k,
        ) {
            Some(v) => seq![v@],
            None => Seq::empty(),
        }
    }
}

/// The failed merges of task `k` over all repositories, in order.
pub open spec fn summary_failures(outputs: Seq<MergeAllTasksOutput>, k: Seq<char>) -> Seq<
    FailureModel,
>
    decreases outputs.len(),
{
    if outputs.len() == 0 {
        Seq::empty()
    } else {
        summary_failures(outputs.drop_last(), k) + match entry_for(
            outputs.last().failed_merge_task_output_by_task_id@,
            k,
        ) {
            Some(v) => seq![v@],
            None => Seq::empty(),
        }
    }
}

/// The failures of task `k` are those of every repository that failed it,
/// whatever else the repository did, and nothing else.
proof fn lemma_summary_failures_each(outputs: Seq<MergeAllTasksOutput>, k: Seq<char>)
    ensures
        forall|r: int|
            0 <= r < outputs.len() ==> (#[trigger] entry_for(outputs[r].failed_merge_task_output_by_task_id@, k)
                matches Some(f) ==> summary_failures(outputs, k).contains(f@)),
        forall|x: FailureModel|
            #[trigger] summary_failures(outputs, k).contains(x) ==> exists|r: int|
                0 <= r < outputs.len() && (#[trigger] entry_for(outputs[r].failed_merge_task_output_by_task_id@, k)
                    matches Some(f) && f@ == x),
    decreases outputs.len(),
{
    if outputs.len() > 0 {
        let init = outputs.drop_last();
        lemma_summary_failures_each(init, k);
        let prev = summary_failures(init, k);
        let last = outputs.len() - 1;
        let tail: Seq<FailureModel> = match entry_for(outputs[last].failed_merge_task_output_by_task_id@, k) {
            Some(v) => seq![v@],
            None => Seq::empty(),
        };
        assert(outputs.last() == outputs[last]);
        assert(summary_failures(outputs, k) == prev + tail);
        assert forall|r: int|
            0 <= r < outputs.len() implies (#[trigger] entry_for(outputs[r].failed_merge_task_output_by_task_id@, k)
            matches Some(f) ==> summary_failures(outputs, k).contains(f@)) by {
            if let Some(f) = entry_for(outputs[r].failed_merge_task_output_by_task_id@, k) {
                if r < last {
                    assert(init[r] == outputs[r]);
                    let i = choose|i: int| 0 <= i < prev.len() && prev[i] == f@;
                    assert((prev + tail)[i] == f@);
                } else {
                    assert((prev + tail)[prev.len() as int] == f@);
                }
            }
        }
        assert forall|x: FailureModel| #[trigger] summary_failures(outputs, k).contains(x) implies exists|r: int|
            0 <= r < outputs.len() && (#[trigger] entry_for(outputs[r].failed_merge_task_output_by_task_id@, k)
                matches Some(f) && f@ == x) by {
            let i = choose|i: int| 0 <= i < (prev + tail).len() && (prev + tail)[i] == x;
            if i < prev.len() {
                assert(prev.contains(x));
                let r = choose|r: int|
                    0 <= r < init.len() && (#[trigger] entry_for(init[r].failed_merge_task_output_by_task_id@, k)
                        matches Some(f) && f@ == x);
                assert(init[r] == outputs[r]);
            } else {
                assert(entry_for(outputs[last].failed_merge_task_output_by_task_id@, k) is Some);
            }
        }
    }
}

/// The successes of task `k` are those of every repository that merged it,
/// whatever else the repository did, and nothing else.
proof fn lemma_summary_successes_each(outputs: Seq<MergeAllTasksOutput>, k: Seq<char>)
    ensures
        forall|r: int|
            0 <= r < outputs.len() ==> (#[trigger] entry_for(outputs[r].successful_merge_task_output_by_task_id@, k)
                matches Some(f) ==> summary_successes(outputs, k).contains(f@)),
        forall|x: SuccessModel|
            #[trigger] summary_successes(outputs, k).contains(x) ==> exists|r: int|
                0 <= r < outputs.len() && (#[trigger] entry_for(outputs[r].successful_merge_task_output_by_task_id@, k)
                    matches Some(f) && f@ == x),
    decreases outputs.len(),
{
    if outputs.len() > 0 {
        let init = outputs.drop_last();
        lemma_summary_successes_each(init, k);
        let prev = summary_successes(init, k);
        let last = outputs.len() - 1;
        let tail: Seq<SuccessModel> = match entry_for(outputs[last].successful_merge_task_output_by_task_id@, k) {
            Some(v) => seq![v@],
            None => Seq::empty(),
        };
        assert(outputs.last() == outputs[last]);
        assert(summary_successes(outputs, k) == prev + tail);
        assert forall|r: int|
            0 <= r < outputs.len() implies (#[trigger] entry_for(outputs[r].successful_merge_task_output_by_task_id@, k)
            matches Some(f) ==> summary_successes(outputs, k).contains(f@)) by {
            if let Some(f) = entry_for(outputs[r].successful_merge_task_output_by_task_id@, k) {
                if r < last {
                    assert(init[r] == outputs[r]);
                    let i = choose|i: int| 0 <= i < prev.len() && prev[i] == f@;
                    assert((prev + tail)[i] == f@);
                } else {
                    assert((prev + tail)[prev.len() as int] == f@);
                }
            }
        }
        assert forall|x: SuccessModel| #[trigger] summary_successes(outputs, k).contains(x) implies exists|r: int|
            0 <= r < outputs.len() && (#[trigger] entry_for(outputs[r].successful_merge_task_output_by_task_id@, k)
                matches Some(f) && f@ == x) by {
            let i = choose|i: int| 0 <= i < (prev + tail).len() && (prev + tail)[i] == x;
            if i < prev.len() {
                assert(prev.contains(x));
                let r = choose|r: int|
                    0 <= r < init.len() && (#[trigger] entry_for(init[r].successful_merge_task_output_by_task_id@, k)
                        matches Some(f) && f@ == x);
                assert(init[r] == outputs[r]);
            } else {
                assert(entry_for(outputs[last].successful_merge_task_output_by_task_id@, k) is Some);
            }
        }
    }
}

/// The summary of a task is what all repositories did with it.
pub open spec fn summarizes(summary: TaskMergeSummary, outputs: Seq<MergeAllTasksOutput>, k: Seq<char>) -> bool {
    &&& summary.already_in_master_branch_related_commits@.map_values(|c: TaskInMasterBranch| c@)
        == summary_commits(outputs, k)
    &&& summary.success_merge_results@.map_values(|o: SuccesfulMergeTaskOutput| o@)
        == summary_successes(outputs, k)
    &&& summary.failed_merge_results@.map_values(|o: FailedMergeTaskOutput| o@)
        == summary_failures(outputs, k)
}

/// The views of failed merges.
pub open spec fn failure_views(v: Seq<FailedMergeTaskOutput>) -> Seq<FailureModel> {
    v.map_values(|o: FailedMergeTaskOutput| o@)
}

/// The views of successful merges.
pub open spec fn success_views(v: Seq<SuccesfulMergeTaskOutput>) -> Seq<SuccessModel> {
    v.map_values(|o: SuccesfulMergeTaskOutput| o@)
}

/// A task's summary reports what every repository did with it: the failure
/// of each repository that failed the task and the success of each that
/// merged it, whatever else that repository did, and no other.
pub proof fn lemma_summary_reports_every_repository(
    summary: TaskMergeSummary,
    outputs: Seq<MergeAllTasksOutput>,
    k: Seq<char>,
)
    requires
        summarizes(summary, outputs, k),
    ensures
        forall|r: int|
            0 <= r < outputs.len() ==> (#[trigger] entry_for(outputs[r].failed_merge_task_output_by_task_id@, k)
                matches Some(f) ==> failure_views(summary.failed_merge_results@).contains(
                f@,
            )),
        forall|r: int|
            0 <= r < outputs.len() ==> (#[trigger] entry_for(outputs[r].successful_merge_task_output_by_task_id@, k)
                matches Some(s) ==> success_views(summary.success_merge_results@).contains(
                s@,
            )),
        forall|x: FailureModel|
            #[trigger] failure_views(summary.failed_merge_results@).contains(x)
                ==> exists|r: int|
                0 <= r < outputs.len() && (#[trigger] entry_for(outputs[r].failed_merge_task_output_by_task_id@, k)
                    matches Some(f) && f@ == x),
        forall|x: SuccessModel|
            #[trigger] success_views(summary.success_merge_results@).contains(x)
                ==> exists|r: int|
                0 <= r < outputs.len() && (#[trigger] entry_for(outputs[r].successful_merge_task_output_by_task_id@, k)
                    matches Some(s) && s@ == x),
{
    assert(failure_views(summary.failed_merge_results@) =~= summary_failures(outputs, k));
    assert(success_views(summary.success_merge_results@) =~= summary_successes(outputs, k));
    lemma_summary_failures_each(outputs, k);
    lemma_summary_successes_each(outputs, k);
}

/// What all repositories did with each task: its commits in master, its
/// successful and its failed merges, repositories in order. One entry per
/// task, in the order of the tasks.
pub fn merge_result_summary_by_task_id(
    tasks: &Vec<Task>,
    outputs: &Vec<MergeAllTasksOutput>,
) -> (summaries: Vec<(String, TaskMergeSummary)>)
    ensures
        summaries@.len() == tasks@.len(),
        forall|t: int|
            0 <= t < tasks@.len() ==> #[trigger] summaries@[t].0@ == tasks@[t].id@ && summarizes(
                summaries@[t].1,
                outputs@,
                tasks@[t].id@,
            ),
{
    let mut summaries: Vec<(String, TaskMergeSummary)> = Vec::new();
    let mut t: usize = 0;
    while t < tasks.len()
        invariant
            t <= tasks@.len(),
            summaries@.len() == t,
            forall|q: int|
                0 <= q < t ==> #[trigger] summaries@[q].0@ == tasks@[q].id@ && summarizes(
                    summaries@[q].1,
                    outputs@,
                    tasks@[q].id@,
                ),
        decreases tasks@.len() - t,
    {
        let id = tasks[t].id.as_str();
        let mut summary = TaskMergeSummary {
            success_merge_results: Vec::new(),
            failed_merge_results: Vec::new(),
            already_in_master_branch_related_commits: Vec::new(),
        };
        let mut o: usize = 0;
        assert(outputs@.take(0) =~= Seq::<MergeAllTasksOutput>::empty());
        assert(summary.already_in_master_branch_related_commits@.map_values(
            |c: TaskInMasterBranch| c@,
        ) =~= Seq::empty());
        assert(summary.success_merge_results@.map_values(|x: SuccesfulMergeTaskOutput| x@)
            =~= Seq::empty());
        assert(summary.failed_merge_results@.map_values(|x: FailedMergeTaskOutput| x@)
            =~= Seq::empty());
        while o < outputs.len()
            invariant
                o <= outputs@.len(),
                summarizes(summary, outputs@.take(o as int), id@),
            decreases outputs@.len() - o,
        {
            let ghost prev = outputs@.take(o as int);
            let ghost next = outputs@.take(o + 1);
            assert(next.drop_last() =~= prev);
            assert(next.last() == outputs@[o as int]);
            let output = &outputs[o];
            let ghost c0 = summary.already_in_master_branch_related_commits@.map_values(
                |c: TaskInMasterBranch| c@,
            );
            match find_entry(&output.tasks_in_master_branch_by_task_id, id) {
                Some(commits) => {
                    let ghost successes0 = summary.success_merge_results;
                    let ghost failures0 = summary.failed_merge_results;
                    let mut j: usize = 0;
                    while j < commits.len()
                        invariant
                            j <= commits@.len(),
                            summary.success_merge_results == successes0,
                            summary.failed_merge_results == failures0,
                            summary.already_in_master_branch_related_commits@.map_values(
                                |c: TaskInMasterBranch| c@,
                            ) == c0 + commits@.take(j as int).map_values(|c: TaskInMasterBranch| c@),
                        decreases commits@.len() - j,
                    {
                        let ghost before = summary.already_in_master_branch_related_commits@;
                        summary.already_in_master_branch_related_commits.push(commits[j].clone());
                        assert(summary.already_in_master_branch_related_commits@.map_values(
                            |c: TaskInMasterBranch| c@,
                        ) =~= before.map_values(|c: TaskInMasterBranch| c@).push(commits@[j as int]@));
                        assert(commits@.take(j + 1).map_values(|c: TaskInMasterBranch| c@)
                            =~= commits@.take(j as int).map_values(|c: TaskInMasterBranch| c@).push(
                            commits@[j as int]@,
                        ));
                        j = j + 1;
                    }
                    assert(commits@.take(j as int) =~= commits@);
                },
                None => {
                    assert(c0 + Seq::empty() =~= c0);
                },
            }
            let ghost s0 = summary.success_merge_results@.map_values(|x: SuccesfulMergeTaskOutput| x@);
            match find_entry(&output.successful_merge_task_output_by_task_id, id) {
                Some(success) => {
                    summary.success_merge_results.push(success.clone());
                    assert(summary.success_merge_results@.map_values(
                        |x: SuccesfulMergeTaskOutput| x@,
                    ) =~= s0 + seq![success@]);
                },
                None => {
                    assert(s0 + Seq::empty() =~= s0);
                },
            }
            let ghost f0 = summary.failed_merge_results@.map_values(|x: FailedMergeTaskOutput| x@);
            match find_entry(&output.failed_merge_task_output_by_task_id, id) {
                Some(failure) => {
                    summary.failed_merge_results.push(failure.clone());
                    assert(summary.failed_merge_results@.map_values(|x: FailedMergeTaskOutput| x@)
                        =~= f0 + seq![failure@]);
                },
                None => {
                    assert(f0 + Seq::empty() =~= f0);
                },
            }
            assert(summary_commits(next, id@) == summary_commits(prev, id@) + match entry_for(
                output.tasks_in_master_branch_by_task_id@,
                id@,
            ) {
                Some(v) => v@.map_values(|c: TaskInMasterBranch| c@),
                None => Seq::empty(),
            });
            assert(summary_successes(next, id@) == summary_successes(prev, id@) + match entry_for(
                output.successful_merge_task_output_by_task_id@,
                id@,
            ) {
                Some(v) => seq![v@],
                None => Seq::empty(),
            });
            assert(summary_failures(next, id@) == summary_failures(prev, id@) + match entry_for(
                output.failed_merge_task_output_by_task_id@,
                id@,
            ) {
                Some(v) => seq![v@],
                None => Seq::empty(),
            });
            assert(summary.already_in_master_branch_related_commits@.map_values(
                |c: TaskInMasterBranch| c@,
            ) == summary_commits(next, id@));
            assert(summary.success_merge_results@.map_values(|x: SuccesfulMergeTaskOutput| x@)
                == summary_successes(next, id@));
            assert(summary.failed_merge_results@.map_values(|x: FailedMergeTaskOutput| x@)
                == summary_failures(next, id@));
            o = o + 1;
        }
        assert(outputs@.take(o as int) =~= outputs@);
        summaries.push((tasks[t].id.clone(), summary));
        t = t + 1;
    }
    summaries
}

} // verus!
