//! What starting a program in a console needs: its environment, its directory, its size.
use vstd::prelude::*;
use vstd::string::*;

use crate::mux::pane::PtySize;
use crate::notify::push_utf16;
#[allow(unused_imports)]
use crate::notify::utf16;
use crate::text::{str_eq, text_less, to_uppercase};
#[allow(unused_imports)]
use crate::text::{text_before, uppercase};

verus! {

/// An environment variable: its name and its value.
pub type Var = (Seq<char>, Seq<char>);

/// The contents of a list of variables.
pub open spec fn vars_view(vars: Seq<(String, String)>) -> Seq<Var> {
    Seq::new(vars.len(), |i: int| (vars[i].0@, vars[i].1@))
}

/// Variables sorted by name, with one set: in place of the one with the same name, or where it
/// belongs.
pub open spec fn with_var(vars: Seq<Var>, v: Var) -> Seq<Var>
    decreases vars.len(),
{
    if vars.len() == 0 || text_before(vars.last().0, v.0, 0) {
        vars.push(v)
    } else if vars.last().0 == v.0 {
        vars.drop_last().push(v)
    } else {
        with_var(vars.drop_last(), v).push(vars.last())
    }
}

/// Variables sorted by name, with the first `n` of a list set.
pub open spec fn with_vars(vars: Seq<Var>, list: Seq<Var>, n: int) -> Seq<Var>
    decreases n,
{
    if n <= 0 {
        vars
    } else {
        with_var(with_vars(vars, list, n - 1), list[n - 1])
    }
}

/// Variables with one more, behind those whose name in upper case does not come after its own.
pub open spec fn placed_by_upper(vars: Seq<Var>, v: Var) -> Seq<Var>
    decreases vars.len(),
{
    if vars.len() > 0 && text_before(uppercase(v.0), uppercase(vars.last().0), 0) {
        placed_by_upper(vars.drop_last(), v).push(vars.last())
    } else {
        vars.push(v)
    }
}

/// The first `n` variables sorted by name, whatever the case.
pub open spec fn by_upper(vars: Seq<Var>, n: int) -> Seq<Var>
    decreases n,
{
    if n <= 0 {
        Seq::empty()
    } else {
        placed_by_upper(by_upper(vars, n - 1), vars[n - 1])
    }
}

/// One variable in an environment block.
pub open spec fn entry(v: Var) -> Seq<u16> {
    (utf16(v.0) + utf16("="@) + utf16(v.1)).push(0)
}

/// The first `n` variables in an environment block.
pub open spec fn entries(vars: Seq<Var>, n: int) -> Seq<u16>
    decreases n,
{
    if n <= 0 {
        Seq::empty()
    } else {
        entries(vars, n - 1) + entry(vars[n - 1])
    }
}

/// The environment block of inherited variables and additions that override them.
pub open spec fn env_block_of(inherited: Seq<Var>, additions: Seq<Var>) -> Seq<u16> {
    let merged = with_vars(
        with_vars(Seq::empty(), inherited, inherited.len() as int),
        additions,
        additions.len() as int,
    );
    let sorted = by_upper(merged, merged.len() as int);
    entries(sorted, sorted.len() as int).push(0)
}

fn set_var(vars: &mut Vec<(String, String)>, name: &str, value: &str)
    ensures
        vars_view(final(vars)@) == with_var(vars_view(old(vars)@), (name@, value@)),
    decreases old(vars)@.len(),
{
    let ghost before = vars_view(vars@);
    let n: usize = vars.len();
    if n == 0 || text_less(vars[n - 1].0.as_str(), name) {
        vars.push((String::from_str(name), String::from_str(value)));
        assert(vars_view(vars@) =~= before.push((name@, value@)));
    } else if str_eq(vars[n - 1].0.as_str(), name) {
        let _old = vars.pop();
        vars.push((String::from_str(name), String::from_str(value)));
        assert(vars_view(vars@) =~= before.drop_last().push((name@, value@)));
    } else {
        if let Some(last) = vars.pop() {
            assert(vars_view(vars@) =~= before.drop_last());
            set_var(vars, name, value);
            let ghost mid = vars_view(vars@);
            vars.push(last);
            assert(vars_view(vars@) =~= mid.push(before.last()));
        }
    }
}

fn set_vars(vars: &mut Vec<(String, String)>, list: &Vec<(String, String)>)
    ensures
        vars_view(final(vars)@) == with_vars(
            vars_view(old(vars)@),
            vars_view(list@),
            list@.len() as int,
        ),
{
    let mut i: usize = 0;
    while i < list.len()
        invariant
            i <= list@.len(),
            vars_view(vars@) == with_vars(vars_view(old(vars)@), vars_view(list@), i as int),
        decreases list@.len() - i,
    {
        assert(vars_view(list@)[i as int] == (list@[i as int].0@, list@[i as int].1@));
        set_var(vars, list[i].0.as_str(), list[i].1.as_str());
        i = i + 1;
    }
}

fn place_upper(vars: &mut Vec<(String, String)>, v: (String, String))
    ensures
        vars_view(final(vars)@) == placed_by_upper(vars_view(old(vars)@), (v.0@, v.1@)),
    decreases old(vars)@.len(),
{
    let ghost before = vars_view(vars@);
    let n: usize = vars.len();
    let mine = to_uppercase(v.0.as_str());
    let after = if n > 0 {
        let last = to_uppercase(vars[n - 1].0.as_str());
        text_less(mine.as_str(), last.as_str())
    } else {
        false
    };
    if after {
        if let Some(last) = vars.pop() {
            assert(vars_view(vars@) =~= before.drop_last());
            place_upper(vars, v);
            let ghost mid = vars_view(vars@);
            vars.push(last);
            assert(vars_view(vars@) =~= mid.push(before.last()));
        }
    } else {
        vars.push(v);
        assert(vars_view(vars@) =~= before.push((v.0@, v.1@)));
    }
}

/// Builds an environment block: the inherited variables with the additions applied, sorted by name
/// whatever the case, each terminated, and terminated once more.
pub fn build_env_block(inherited: &Vec<(String, String)>, additions: &Vec<(String, String)>) -> (block:
    Vec<u16>)
    ensures
        block@ == env_block_of(vars_view(inherited@), vars_view(additions@)),
{
    let mut merged: Vec<(String, String)> = Vec::new();
    assert(vars_view(merged@) =~= Seq::empty());
    set_vars(&mut merged, inherited);
    set_vars(&mut merged, additions);
    let ghost m = vars_view(merged@);
    let mut sorted: Vec<(String, String)> = Vec::new();
    assert(vars_view(sorted@) =~= Seq::empty());
    let mut i: usize = 0;
    while i < merged.len()
        invariant
            i <= merged@.len(),
            m == vars_view(merged@),
            vars_view(sorted@) == by_upper(m, i as int),
        decreases merged@.len() - i,
    {
        assert(m[i as int] == (merged@[i as int].0@, merged@[i as int].1@));
        place_upper(&mut sorted, (merged[i].0.clone(), merged[i].1.clone()));
        i = i + 1;
    }
    let ghost s = vars_view(sorted@);
    let mut block: Vec<u16> = Vec::new();
    let mut k: usize = 0;
    assert(block@ =~= Seq::empty());
    while k < sorted.len()
        invariant
            k <= sorted@.len(),
            s == vars_view(sorted@),
            block@ == entries(s, k as int),
        decreases sorted@.len() - k,
    {
        let ghost before = block@;
        push_utf16(&mut block, sorted[k].0.as_str());
        push_utf16(&mut block, "=");
        push_utf16(&mut block, sorted[k].1.as_str());
        block.push(0);
        assert(s[k as int] == (sorted@[k as int].0@, sorted@[k as int].1@));
        assert(block@ =~= before + entry(s[k as int]));
        k = k + 1;
    }
    block.push(0);
    block
}

/// The directory to start in: none where none, or an empty one, is given.
pub fn start_dir(cwd: Option<&str>) -> (r: Option<&str>)
    ensures
        match r {
            Some(d) => cwd matches Some(c) && c@ == d@ && d@.len() > 0,
            None => cwd matches Some(c) ==> c@.len() == 0,
        },
{
    match cwd {
        Some(c) => if c.is_empty() {
            None
        } else {
            Some(c)
        },
        None => None,
    }
}

impl PtySize {
    /// The size as the system wants it: at least one cell each way, as signed 16-bit numbers.
    pub fn coord(self) -> (r: (i16, i16))
        ensures
            r.0 == (if self.cols < 1 {
                1u16
            } else {
                self.cols
            }) as i16,
            r.1 == (if self.rows < 1 {
                1u16
            } else {
                self.rows
            }) as i16,
    {
        let cols: u16 = if self.cols < 1 {
            1
        } else {
            self.cols
        };
        let rows: u16 = if self.rows < 1 {
            1
        } else {
            self.rows
        };
        (
            #[verifier::truncate]
            (cols as i16),
            #[verifier::truncate]
            (rows as i16),
        )
    }
}

/// Whether a program has running children: its job holds more than the program itself.
pub fn is_busy(processes: u32) -> (b: bool)
    ensures
        b == (processes > 1),
{
    processes > 1
}

// ---------------------------------------------------------------------------
// Laws.
// ---------------------------------------------------------------------------

/// Whether a variable is set to a value.
pub open spec fn is_set(vars: Seq<Var>, name: Seq<char>, value: Seq<char>) -> bool {
    exists|i: int| 0 <= i < vars.len() && #[trigger] vars[i] == (name, value)
}

proof fn lemma_with_var(vars: Seq<Var>, v: Var)
    ensures
        is_set(with_var(vars, v), v.0, v.1),
    decreases vars.len(),
{
    let r = with_var(vars, v);
    if vars.len() == 0 || text_before(vars.last().0, v.0, 0) {
        assert(r[vars.len() as int] == v);
    } else if vars.last().0 == v.0 {
        assert(r[vars.len() - 1] == v);
    } else {
        let front = vars.drop_last();
        lemma_with_var(front, v);
        let q = with_var(front, v);
        let i = choose|i: int| 0 <= i < q.len() && #[trigger] q[i] == (v.0, v.1);
        assert(r[i] == v);
    }
}

/// An addition reaches the environment: after it, the variable has that value.
pub proof fn an_addition_is_set(vars: Seq<Var>, list: Seq<Var>, n: int)
    requires
        0 < n <= list.len(),
    ensures
        is_set(with_vars(vars, list, n), list[n - 1].0, list[n - 1].1),
{
    lemma_with_var(with_vars(vars, list, n - 1), list[n - 1]);
}

proof fn lemma_other_var(vars: Seq<Var>, v: Var, name: Seq<char>, value: Seq<char>)
    requires
        is_set(vars, name, value),
        name != v.0,
    ensures
        is_set(with_var(vars, v), name, value),
    decreases vars.len(),
{
    let r = with_var(vars, v);
    let i = choose|i: int| 0 <= i < vars.len() && #[trigger] vars[i] == (name, value);
    if vars.len() == 0 || text_before(vars.last().0, v.0, 0) {
        assert(r[i] == vars[i]);
    } else if vars.last().0 == v.0 {
        assert(r[i] == vars[i]);
    } else if i == vars.len() - 1 {
        assert(r[r.len() - 1] == vars[i]);
    } else {
        let front = vars.drop_last();
        assert(front[i] == vars[i]);
        lemma_other_var(front, v, name, value);
        let q = with_var(front, v);
        let j = choose|j: int| 0 <= j < q.len() && #[trigger] q[j] == (name, value);
        assert(r[j] == q[j]);
    }
}

proof fn lemma_with_vars(vars: Seq<Var>, list: Seq<Var>, n: int, k: int)
    requires
        0 <= k < n <= list.len(),
        forall|j: int| k < j < n ==> (#[trigger] list[j]).0 != list[k].0,
    ensures
        is_set(with_vars(vars, list, n), list[k].0, list[k].1),
    decreases n,
{
    let front = with_vars(vars, list, n - 1);
    if k == n - 1 {
        lemma_with_var(front, list[k]);
    } else {
        lemma_with_vars(vars, list, n - 1, k);
        lemma_other_var(front, list[n - 1], list[k].0, list[k].1);
    }
}

proof fn lemma_placed(vars: Seq<Var>, v: Var, name: Seq<char>, value: Seq<char>)
    requires
        is_set(vars, name, value) || v == (name, value),
    ensures
        is_set(placed_by_upper(vars, v), name, value),
    decreases vars.len(),
{
    let r = placed_by_upper(vars, v);
    if vars.len() > 0 && text_before(uppercase(v.0), uppercase(vars.last().0), 0) {
        let front = vars.drop_last();
        if is_set(vars, name, value) {
            let i = choose|i: int| 0 <= i < vars.len() && #[trigger] vars[i] == (name, value);
            if i == vars.len() - 1 {
                assert(r[r.len() - 1] == vars[i]);
            } else {
                assert(front[i] == vars[i]);
                lemma_placed(front, v, name, value);
            }
        } else {
            lemma_placed(front, v, name, value);
        }
        let q = placed_by_upper(front, v);
        if is_set(q, name, value) {
            let j = choose|j: int| 0 <= j < q.len() && #[trigger] q[j] == (name, value);
            assert(r[j] == q[j]);
        }
    } else if v == (name, value) {
        assert(r[vars.len() as int] == v);
    } else {
        let i = choose|i: int| 0 <= i < vars.len() && #[trigger] vars[i] == (name, value);
        assert(r[i] == vars[i]);
    }
}

proof fn lemma_by_upper(vars: Seq<Var>, n: int, i: int)
    requires
        0 <= i < n <= vars.len(),
    ensures
        is_set(by_upper(vars, n), vars[i].0, vars[i].1),
    decreases n,
{
    if i < n - 1 {
        lemma_by_upper(vars, n - 1, i);
    }
    lemma_placed(by_upper(vars, n - 1), vars[n - 1], vars[i].0, vars[i].1);
}

proof fn lemma_entries(vars: Seq<Var>, n: int, i: int) -> (at: int)
    requires
        0 <= i < n <= vars.len(),
    ensures
        0 <= at,
        at + entry(vars[i]).len() <= entries(vars, n).len(),
        entries(vars, n).subrange(at, at + entry(vars[i]).len()) == entry(vars[i]),
    decreases n,
{
    let front = entries(vars, n - 1);
    let all = entries(vars, n);
    if i == n - 1 {
        let at = front.len() as int;
        assert(all.subrange(at, at + entry(vars[i]).len()) =~= entry(vars[i]));
        at
    } else {
        let at = lemma_entries(vars, n - 1, i);
        assert(all.subrange(at, at + entry(vars[i]).len()) =~= front.subrange(
            at,
            at + entry(vars[i]).len(),
        ));
        at
    }
}

/// Every addition stands in the environment block in the end, with its value, unless a later
/// addition sets the same name.
pub proof fn all_additions_are_set(inherited: Seq<Var>, additions: Seq<Var>, k: int)
    requires
        0 <= k < additions.len(),
        forall|j: int| k < j < additions.len() ==> (#[trigger] additions[j]).0 != additions[k].0,
    ensures
        exists|at: int|
            0 <= at && at + entry(additions[k]).len() <= env_block_of(inherited, additions).len()
                && #[trigger] env_block_of(inherited, additions).subrange(
                at,
                at + entry(additions[k]).len(),
            ) == entry(additions[k]),
{
    let start = with_vars(Seq::empty(), inherited, inherited.len() as int);
    let merged = with_vars(start, additions, additions.len() as int);
    let v = additions[k];
    lemma_with_vars(start, additions, additions.len() as int, k);
    let i = choose|i: int| 0 <= i < merged.len() && #[trigger] merged[i] == (v.0, v.1);
    lemma_by_upper(merged, merged.len() as int, i);
    let sorted = by_upper(merged, merged.len() as int);
    let j = choose|j: int| 0 <= j < sorted.len() && #[trigger] sorted[j] == (v.0, v.1);
    assert(sorted[j] == v);
    let at = lemma_entries(sorted, sorted.len() as int, j);
    let n = entry(v).len();
    assert(env_block_of(inherited, additions).subrange(at, at + n) =~= entries(
        sorted,
        sorted.len() as int,
    ).subrange(at, at + n));
}

proof fn lemma_with_vars_of_two(vars: Seq<Var>, a: Seq<Var>, b: Seq<Var>, n: int)
    requires
        0 <= n <= b.len(),
    ensures
        with_vars(with_vars(vars, a, a.len() as int), b, n) == with_vars(vars, a + b, a.len() + n),
    decreases n,
{
    if n > 0 {
        lemma_with_vars_of_two(vars, a, b, n - 1);
        assert((a + b)[a.len() + n - 1] == b[n - 1]);
    } else {
        lemma_same_vars(vars, a, a + b, a.len() as int);
    }
}

proof fn lemma_same_vars(vars: Seq<Var>, a: Seq<Var>, b: Seq<Var>, n: int)
    requires
        0 <= n <= a.len(),
        n <= b.len(),
        forall|i: int| 0 <= i < n ==> a[i] == b[i],
    ensures
        with_vars(vars, a, n) == with_vars(vars, b, n),
    decreases n,
{
    if n > 0 {
        lemma_same_vars(vars, a, b, n - 1);
    }
}

/// Every inherited variable stands in the environment block, as its name, `=` and its value, unless
/// a later one or an addition sets the same name.
pub proof fn inherited_variables_stay(inherited: Seq<Var>, additions: Seq<Var>, k: int)
    requires
        0 <= k < inherited.len(),
        forall|j: int| k < j < inherited.len() ==> (#[trigger] inherited[j]).0 != inherited[k].0,
        forall|j: int| 0 <= j < additions.len() ==> (#[trigger] additions[j]).0 != inherited[k].0,
    ensures
        exists|at: int|
            0 <= at && at + utf16(inherited[k].0).len() + utf16("="@).len() + utf16(
                inherited[k].1,
            ).len() + 1 <= env_block_of(inherited, additions).len()
                && #[trigger] env_block_of(inherited, additions).subrange(
                at,
                at + utf16(inherited[k].0).len() + utf16("="@).len() + utf16(inherited[k].1).len() + 1,
            ) == utf16(inherited[k].0) + utf16("="@) + utf16(inherited[k].1) + seq![0u16],
{
    let both = inherited + additions;
    let none = Seq::<Var>::empty();
    lemma_with_vars_of_two(none, inherited, additions, additions.len() as int);
    assert(with_vars(none, none, 0) == none);
    assert(env_block_of(inherited, additions) == env_block_of(none, both));
    assert forall|j: int| k < j < both.len() implies (#[trigger] both[j]).0 != both[k].0 by {
        if j < inherited.len() {
            assert(both[j] == inherited[j]);
        } else {
            assert(both[j] == additions[j - inherited.len()]);
        }
    }
    all_additions_are_set(none, both, k);
    let e = entry(inherited[k]);
    assert(e =~= utf16(inherited[k].0) + utf16("="@) + utf16(inherited[k].1) + seq![0u16]);
    let at = choose|at: int|
        0 <= at && at + e.len() <= env_block_of(none, both).len() && #[trigger] env_block_of(
            none,
            both,
        ).subrange(at, at + e.len()) == e;
    assert(env_block_of(inherited, additions).subrange(
        at,
        at + utf16(inherited[k].0).len() + utf16("="@).len() + utf16(inherited[k].1).len() + 1,
    ) == e);
}

} // verus!
