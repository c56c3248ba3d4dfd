//! Learning tasks by name.

use vstd::prelude::*;

verus! {

/// The tasks that the learner tells apart.
#[derive(Clone, Copy, PartialEq, Eq, Structural, Debug)]
pub enum Task {
    Regression,
    Binary,
    Multiclass,
    Poisson,
    Rank,
    Other,
}

/// The task that a name stands for.
pub open spec fn task_named(name: Seq<char>) -> Task {
    if name == "regression"@ {
        Task::Regression
    } else if name == "binary"@ {
        Task::Binary
    } else if name == "multiclass"@ {
        Task::Multiclass
    } else if name == "poisson"@ {
        Task::Poisson
    } else if name == "rank"@ {
        Task::Rank
    } else {
        Task::Other
    }
}

pub fn task_from_name(name: &String) -> (r: Task)
    ensures
        r == task_named(name@),
{
    if *name == "regression".to_string() {
        Task::Regression
    } else if *name == "binary".to_string() {
        Task::Binary
    } else if *name == "multiclass".to_string() {
        Task::Multiclass
    } else if *name == "poisson".to_string() {
        Task::Poisson
    } else if *name == "rank".to_string() {
        Task::Rank
    } else {
        Task::Other
    }
}

/// Each task has one name, and every other name stands for none of them.
pub proof fn law_tasks_have_one_name(name: Seq<char>)
    ensures
        task_named(name) == Task::Regression <==> name == seq!['r', 'e', 'g', 'r', 'e', 's', 's', 'i', 'o', 'n'],
        task_named(name) == Task::Binary <==> name == seq!['b', 'i', 'n', 'a', 'r', 'y'],
        task_named(name) == Task::Multiclass <==> name == seq!['m', 'u', 'l', 't', 'i', 'c', 'l', 'a', 's', 's'],
        task_named(name) == Task::Poisson <==> name == seq!['p', 'o', 'i', 's', 's', 'o', 'n'],
        task_named(name) == Task::Rank <==> name == seq!['r', 'a', 'n', 'k'],
{
    reveal_strlit("regression");
    reveal_strlit("binary");
    reveal_strlit("multiclass");
    reveal_strlit("poisson");
    reveal_strlit("rank");
    assert("regression"@ =~= seq!['r', 'e', 'g', 'r', 'e', 's', 's', 'i', 'o', 'n']);
    assert("binary"@ =~= seq!['b', 'i', 'n', 'a', 'r', 'y']);
    assert("multiclass"@ =~= seq!['m', 'u', 'l', 't', 'i', 'c', 'l', 'a', 's', 's']);
    assert("poisson"@ =~= seq!['p', 'o', 'i', 's', 's', 'o', 'n']);
    assert("rank"@ =~= seq!['r', 'a', 'n', 'k']);
    assert("regression"@[0] == 'r' && "binary"@[0] == 'b' && "multiclass"@[0] == 'm' && "poisson"@[0] == 'p'
        && "rank"@[0] == 'r');
    assert("regression"@.len() == 10 && "rank"@.len() == 4);
}

} // verus!
